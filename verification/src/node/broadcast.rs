//! The gossip engine: every chat message is handed to a few neighbours, each
//! of which hands it on, and a cache of hashes stops a message that comes back.
//!
//! The engine does no input or output. It is told what arrived, what time it
//! is and which random numbers were drawn, and answers with the effects that
//! its caller has to bring about: messages to send through the session layer,
//! and messages for the local user.

use vstd::prelude::*;
use crate::common::get_hash;
use crate::common::id::Id;
use crate::common::timer::now_millis;
use crate::common::timer::Timer;
use crate::common::timer::TimerView;
use crate::network::addrmap::AddrMap;
use crate::network::addrmap::Peers;
use crate::network::udpmanager::SendHandle;
use crate::network::udpmanager::SendHandleView;
use crate::network::Addr;
use crate::node::cache::Cache;
use crate::node::cache::CacheView;
use crate::node::ktable::Entry;
use crate::node::ktable::Ktable;
use crate::node::ktable::KtableView;
use crate::node::Message;
use crate::node::MessageView;

verus! {

/// The number of neighbours that the engine looks for by itself.
pub const MAX_CONNECTIONS: u32 = 3;

/// The number of hashes that the engine remembers.
pub const CACHE_SIZE: usize = 100;

/// The time, in milliseconds, between two liveness probes.
pub const TING_PERIOD: u64 = 10_000;

/// The time, in milliseconds, that a probed peer has to make itself heard
/// through the flood.
pub const TING_WAIT: u64 = 3_000;

/// The number of requests that the engine takes in one go.
pub const BATCH: usize = 10;

/// What a broadcast carries.
#[derive(Debug)]
pub enum MsgPayload {
    /// The peer with this identifier answers a probe.
    IsAlive(Id),
    /// A chat message.
    Msg(Message),
    /// A probe: show through the flood that you are alive.
    Ting,
}

/// The view of `MsgPayload`.
pub enum MsgPayloadView {
    IsAlive(Id),
    Msg(MessageView),
    Ting,
}

impl View for MsgPayload {
    type V = MsgPayloadView;

    open spec fn view(&self) -> MsgPayloadView {
        match self {
            MsgPayload::IsAlive(id) => MsgPayloadView::IsAlive(*id),
            MsgPayload::Msg(m) => MsgPayloadView::Msg(m@),
            MsgPayload::Ting => MsgPayloadView::Ting,
        }
    }
}

impl MsgPayload {
    /// A copy of this payload.
    pub fn duplicate(&self) -> (p: MsgPayload)
        ensures
            p@ == self@,
    {
        match self {
            MsgPayload::IsAlive(id) => MsgPayload::IsAlive(*id),
            MsgPayload::Msg(m) => MsgPayload::Msg(m.duplicate()),
            MsgPayload::Ting => MsgPayload::Ting,
        }
    }
}

/// A broadcast message as it travels from one peer to the next.
#[derive(Debug)]
pub struct Msg {
    /// The random hash by which the message is recognized when it comes back.
    pub hash: u64,
    /// not the source, but the link that we received from
    pub sender_id: Id,
    /// What the message carries.
    pub payload: MsgPayload,
}

/// The view of `Msg`.
pub struct MsgView {
    pub hash: u64,
    pub sender_id: Id,
    pub payload: MsgPayloadView,
}

impl View for Msg {
    type V = MsgView;

    open spec fn view(&self) -> MsgView {
        MsgView { hash: self.hash, sender_id: self.sender_id, payload: self.payload@ }
    }
}

impl Msg {
    /// A copy of this message.
    pub fn duplicate(&self) -> (m: Msg)
        ensures
            m@ == self@,
    {
        Msg { hash: self.hash, sender_id: self.sender_id, payload: self.payload.duplicate() }
    }
}

/// What the caller of the engine has to bring about.
#[derive(Debug)]
pub enum Effect {
    /// Send `msg` to every address of `targets` through the broadcast service,
    /// and report what becomes of each ticket under `tag`.
    Send { tag: u64, msg: Msg, targets: Vec<Addr> },
    /// Show this chat message to the local user.
    Deliver(Message),
    /// Tell the local user that a message could not be sent.
    NotSent,
}

/// The view of `Effect`.
pub enum EffectView {
    Send { tag: u64, msg: MsgView, targets: Seq<Addr> },
    Deliver(MessageView),
    NotSent,
}

impl View for Effect {
    type V = EffectView;

    open spec fn view(&self) -> EffectView {
        match self {
            Effect::Send { tag, msg, targets } => EffectView::Send {
                tag: *tag,
                msg: msg@,
                targets: targets@,
            },
            Effect::Deliver(m) => EffectView::Deliver(m@),
            Effect::NotSent => EffectView::NotSent,
        }
    }
}

/// The views of a list of effects.
pub open spec fn views(es: Seq<Effect>) -> Seq<EffectView> {
    es.map_values(|e: Effect| e@)
}

/// A broadcast that waits for the acknowledgements of the neighbours.
pub struct Active {
    tag: u64,
    msg: Msg,
    sendh: SendHandle<()>,
}

/// The view of `Active`.
pub struct ActiveView {
    /// The tag under which the tickets report.
    pub tag: u64,
    /// The message.
    pub msg: MsgView,
    /// The acknowledgements.
    pub sendh: SendHandleView<()>,
}

impl View for Active {
    type V = ActiveView;

    closed spec fn view(&self) -> ActiveView {
        ActiveView { tag: self.tag, msg: self.msg@, sendh: self.sendh@ }
    }
}

/// A liveness probe that is under way.
pub struct Ting {
    dst: Entry,
    timer: Timer,
    tag: u64,
    sendh: SendHandle<()>,
    sendh_done: bool,
}

/// The view of `Ting`.
pub struct TingView {
    /// The peer that is probed.
    pub dst: Entry,
    /// Runs while the peer's `IsAlive` is awaited from the flood.
    pub timer: TimerView,
    /// The tag under which the ticket of the probe reports.
    pub tag: u64,
    /// The direct acknowledgement.
    pub sendh: SendHandleView<()>,
    /// Whether the direct acknowledgement has been looked at.
    pub sendh_done: bool,
}

impl View for Ting {
    type V = TingView;

    closed spec fn view(&self) -> TingView {
        TingView {
            dst: self.dst,
            timer: self.timer@,
            tag: self.tag,
            sendh: self.sendh@,
            sendh_done: self.sendh_done,
        }
    }
}

/// The tag after `tag`.
pub open spec fn next_tag(tag: u64) -> u64 {
    if tag == u64::MAX {
        0
    } else {
        (tag + 1) as u64
    }
}

/// The acknowledgements of a message that has just been sent to `targets`.
pub open spec fn fresh(targets: Seq<Addr>) -> SendHandleView<()> {
    SendHandleView { count: targets.len(), all: targets, responses: Map::<Addr, ()>::empty() }
}

/// The neighbours to which a message goes: all but the one it came from.
pub open spec fn targets_of(order: Seq<Addr>, ban: Option<Addr>) -> Seq<Addr> {
    order.filter(|a: Addr| ban != Some(a))
}

/// What the engine holds.
pub struct BroadcastView {
    /// The neighbours, with their identifiers.
    pub connected: Peers<Id>,
    /// The hashes of the messages seen of late.
    pub cache: CacheView,
    /// The broadcasts that wait for acknowledgements.
    pub active: Seq<ActiveView>,
    /// The identifier of this peer.
    pub my_id: Id,
    /// Runs between two probes; disarmed while a probe is under way.
    pub ting_timer: TimerView,
    /// The probe that is under way.
    pub ting_cur: Option<TingView>,
    /// The tag of the next message to send.
    pub next_tag: u64,
}

impl BroadcastView {
    /// The engine of the peer `my_id` as it begins at the time `now`: without
    /// neighbours, with the first probe due `TING_PERIOD` later.
    pub open spec fn initial(my_id: Id, now: u64) -> BroadcastView {
        BroadcastView {
            connected: Peers::empty(),
            cache: CacheView { queue: Seq::empty(), capacity: CACHE_SIZE as nat },
            active: Seq::empty(),
            my_id,
            ting_timer: TimerView { start: now, duration: TING_PERIOD, enabled: true },
            ting_cur: None,
            next_tag: 0,
        }
    }

    /// The invariant of the engine, as far as its view shows it.
    pub open spec fn wf(self) -> bool {
        &&& self.connected.wf()
        &&& self.cache.wf()
        &&& self.ting_cur matches Some(t) ==> !self.ting_timer.enabled && t.sendh.all == seq![
            t.dst.sock,
        ]
    }

    /// The engine after `msg` was handed to the neighbours, the neighbour `ban`
    /// left out, and the effects of that.
    ///
    /// Without any neighbour the message is dropped and the user is told so.
    /// Otherwise the hash of the message is remembered; and if a neighbour is
    /// left after the ban, the message is sent to all that are, and waits for
    /// their acknowledgements.
    pub open spec fn emit(self, msg: MsgView, ban: Option<Addr>) -> (BroadcastView, Seq<EffectView>) {
        if self.connected.order.len() == 0 {
            (self, seq![EffectView::NotSent])
        } else {
            let targets = targets_of(self.connected.order, ban);
            let remembered = BroadcastView { cache: self.cache.insert(msg.hash), ..self };
            if targets.len() == 0 {
                (remembered, Seq::empty())
            } else {
                (
                    BroadcastView {
                        active: self.active.push(
                            ActiveView { tag: self.next_tag, msg, sendh: fresh(targets) },
                        ),
                        next_tag: next_tag(self.next_tag),
                        ..remembered
                    },
                    seq![EffectView::Send { tag: self.next_tag, msg, targets }],
                )
            }
        }
    }

    /// The engine after the probe that is under way, if any, was called off
    /// because the peer `id` has made itself heard: the time to the next probe
    /// starts at `now`.
    pub open spec fn heard(self, id: Id, now: u64) -> BroadcastView {
        if self.ting_cur is Some && self.ting_cur->Some_0.dst.id == id {
            BroadcastView {
                ting_cur: None,
                ting_timer: TimerView { start: now, enabled: true, ..self.ting_timer },
                ..self
            }
        } else {
            self
        }
    }

    /// The engine and the routing table after the peer at `sender`, which calls
    /// itself `id`, was taken for a neighbour, if it was none.
    pub open spec fn befriend(self, t: KtableView, sender: Addr, id: Id) -> (
        BroadcastView,
        KtableView,
    ) {
        if self.connected.contains(sender) {
            (self, t)
        } else {
            (
                BroadcastView { connected: self.connected.insert(sender, id), ..self },
                t.offer(Entry { sock: sender, id }),
            )
        }
    }

    /// The engine and the routing table `t` after the broadcast `msg` arrived
    /// from `sender` at the time `now`, and the effects of that. `reply_hash`
    /// is the hash for the message with which a probe is answered.
    ///
    /// A message whose hash is remembered is dropped. Otherwise the hash is
    /// remembered, and:
    /// - a chat message is shown to the user, as one that was not written here;
    /// - an `IsAlive` of the peer that is being probed calls the probe off;
    /// - a probe is answered with a new broadcast `IsAlive` of this peer, and
    ///   goes no further.
    /// After that the sender becomes a neighbour if it was none, and the routing
    /// table is offered its record. A chat message and an `IsAlive` then go on to
    /// all other neighbours under this peer's name.
    pub open spec fn receive(
        self,
        t: KtableView,
        msg: MsgView,
        sender: Addr,
        now: u64,
        reply_hash: u64,
    ) -> (BroadcastView, KtableView, Seq<EffectView>) {
        if self.cache.contains(msg.hash) {
            (self, t, Seq::empty())
        } else {
            let fresh = BroadcastView { cache: self.cache.insert(msg.hash), ..self };
            match msg.payload {
                MsgPayloadView::Ting => {
                    let out = fresh.emit(
                        MsgView {
                            hash: reply_hash,
                            sender_id: self.my_id,
                            payload: MsgPayloadView::IsAlive(self.my_id),
                        },
                        None,
                    );
                    let friends = out.0.befriend(t, sender, msg.sender_id);
                    (friends.0, friends.1, out.1)
                },
                MsgPayloadView::Msg(m) => {
                    let friends = fresh.befriend(t, sender, msg.sender_id);
                    let out = friends.0.emit(
                        MsgView { sender_id: self.my_id, ..msg },
                        Some(sender),
                    );
                    (
                        out.0,
                        friends.1,
                        seq![EffectView::Deliver(MessageView { is_myself: false, ..m })] + out.1,
                    )
                },
                MsgPayloadView::IsAlive(id) => {
                    let friends = fresh.heard(id, now).befriend(t, sender, msg.sender_id);
                    let out = friends.0.emit(
                        MsgView { sender_id: self.my_id, ..msg },
                        Some(sender),
                    );
                    (out.0, friends.1, out.1)
                },
            }
        }
    }
}

/// handles everything that has to do with the broadcast network
pub struct BroadcastManager {
    connected: AddrMap<Id>,
    cache: Cache,
    active: Vec<Active>,
    my_id: Id,
    ting_timer: Timer,
    ting_cur: Option<Ting>,
    next_tag: u64,
}

impl View for BroadcastManager {
    type V = BroadcastView;

    closed spec fn view(&self) -> BroadcastView {
        BroadcastView {
            connected: self.connected.peers(),
            cache: self.cache@,
            active: Seq::new(self.active@.len(), |i: int| self.active@[i]@),
            my_id: self.my_id,
            ting_timer: self.ting_timer@,
            ting_cur: match self.ting_cur {
                Some(t) => Some(t@),
                None => None,
            },
            next_tag: self.next_tag,
        }
    }
}

impl BroadcastManager {
    /// The invariant of the engine.
    pub closed spec fn wf(&self) -> bool {
        &&& self@.wf()
        &&& self.connected.wf()
        &&& self.cache.wf()
        &&& forall|i: int| 0 <= i < self.active@.len() ==> (#[trigger] self.active@[i]).sendh.wf()
        &&& self.ting_cur matches Some(t) ==> t.sendh.wf()
    }

    /// What `wf` says of the view.
    pub proof fn lemma_wf(&self)
        requires
            self.wf(),
        ensures
            self@.wf(),
    {
    }

    /// An engine for the peer `my_id` without neighbours, whose first probe is
    /// due `TING_PERIOD` after `now`.
    pub fn new_at(my_id: Id, now: u64) -> (b: BroadcastManager)
        ensures
            b.wf(),
            b@ == BroadcastView::initial(my_id, now),
    {
        let b = BroadcastManager {
            connected: AddrMap::new(),
            cache: Cache::new(CACHE_SIZE),
            active: Vec::new(),
            my_id,
            ting_timer: Timer::started_at(now, TING_PERIOD),
            ting_cur: None,
            next_tag: 0,
        };
        proof {
            b.connected.lemma_order();
            assert(b@.active =~= Seq::<ActiveView>::empty());
        }
        b
    }

    /// An engine for the peer `my_id` without neighbours, whose first probe is
    /// due `TING_PERIOD` from now.
    pub fn new(my_id: Id) -> (b: BroadcastManager)
        ensures
            b.wf(),
            exists|now: u64| b@ == #[trigger] BroadcastView::initial(my_id, now),
    {
        BroadcastManager::new_at(my_id, now_millis())
    }

    /// The addresses of the neighbours, in the order in which they became
    /// neighbours.
    pub fn neighbours(&self) -> (r: Vec<Addr>)
        requires
            self.wf(),
        ensures
            r@ == self@.connected.order,
    {
        self.connected.keys()
    }

    /// Whether a probe is under way.
    pub fn is_probing(&self) -> (r: bool)
        ensures
            r == (self@.ting_cur is Some),
    {
        self.ting_cur.is_some()
    }

    /// The number of broadcasts that wait for acknowledgements.
    pub fn waiting(&self) -> (n: usize)
        ensures
            n == self@.active.len(),
    {
        self.active.len()
    }

    /// The neighbours to which a message goes: see `targets_of`.
    fn targets(&self, ban: Option<Addr>) -> (targets: Vec<Addr>)
        requires
            self.connected.wf(),
        ensures
            targets@ == targets_of(self.connected.order(), ban),
    {
        let keys = self.connected.keys();
        let mut targets: Vec<Addr> = Vec::new();
        let mut i: usize = 0;
        proof {
            reveal(Seq::filter);
            assert(keys@.take(0) =~= Seq::<Addr>::empty());
        }
        while i < keys.len()
            invariant
                i <= keys@.len(),
                targets@ == targets_of(keys@.take(i as int), ban),
            decreases keys@.len() - i,
        {
            proof {
                reveal(Seq::filter);
                assert(keys@.take(i + 1).drop_last() =~= keys@.take(i as int));
                assert(keys@.take(i + 1).last() == keys@[i as int]);
            }
            let a = keys[i];
            let banned = match ban {
                Some(b) => b == a,
                None => false,
            };
            if !banned {
                targets.push(a);
            }
            i += 1;
        }
        proof {
            assert(keys@.take(i as int) =~= keys@);
        }
        targets
    }

    /// broadcast `msg` to all other nodes: see `BroadcastView::emit`.
    pub fn broadcast_a_msg(&mut self, msg: Msg, ban: Option<Addr>) -> (effects: Vec<Effect>)
        requires
            old(self).wf(),
        ensures
            final(self).wf(),
            (final(self)@, views(effects@)) == old(self)@.emit(msg@, ban),
    {
        let mut effects: Vec<Effect> = Vec::new();
        proof {
            self.connected.lemma_order();
        }
        if self.connected.is_empty() {
            effects.push(Effect::NotSent);
            assert(views(effects@) =~= seq![EffectView::NotSent]);
            return effects;
        }
        self.cache.insert(msg.hash);
        let targets = self.targets(ban);
        // no one to send to
        if targets.len() == 0 {
            assert(views(effects@) =~= Seq::<EffectView>::empty());
            assert(self@.active =~= old(self)@.active);
            return effects;
        }
        let tag = self.next_tag;
        self.next_tag = if tag == u64::MAX {
            0
        } else {
            tag + 1
        };
        let copy = msg.duplicate();
        let again = self.targets(ban);
        let sendh: SendHandle<()> = SendHandle::new(again);
        self.active.push(Active { tag, msg, sendh });
        effects.push(Effect::Send { tag, msg: copy, targets });
        proof {
            assert(views(effects@) =~= seq![
                EffectView::Send { tag, msg: msg@, targets: targets@ },
            ]);
            assert(self@.active =~= old(self)@.active.push(
                ActiveView { tag, msg: msg@, sendh: fresh(targets@) },
            ));
        }
        effects
    }

    /// broadcasts a new message to everyone else, under the hash `hash`
    pub fn broadcast_as(&mut self, msg: Message, hash: u64) -> (effects: Vec<Effect>)
        requires
            old(self).wf(),
        ensures
            final(self).wf(),
            (final(self)@, views(effects@)) == old(self)@.emit(
                MsgView {
                    hash,
                    sender_id: old(self)@.my_id,
                    payload: MsgPayloadView::Msg(msg@),
                },
                None,
            ),
    {
        let m = Msg { hash, sender_id: self.my_id, payload: MsgPayload::Msg(msg) };
        self.broadcast_a_msg(m, None)
    }

    /// broadcasts a new message to everyone else, under a fresh random hash.
    /// Whatever the hash: without any neighbour the message is dropped and the
    /// user is told so; otherwise it is sent to every neighbour.
    pub fn broadcast(&mut self, msg: Message) -> (effects: Vec<Effect>)
        requires
            old(self).wf(),
        ensures
            final(self).wf(),
            exists|hash: u64|
                (final(self)@, views(effects@)) == #[trigger] old(self)@.emit(
                    MsgView {
                        hash,
                        sender_id: old(self)@.my_id,
                        payload: MsgPayloadView::Msg(msg@),
                    },
                    None,
                ),
    {
        let hash = get_hash();
        self.broadcast_as(msg, hash)
    }

    /// Calls the probe off if it is the peer `id` that is probed: see
    /// `BroadcastView::heard`.
    fn heard(&mut self, id: Id, now: u64)
        requires
            old(self).wf(),
        ensures
            final(self).wf(),
            final(self)@ == old(self)@.heard(id, now),
    {
        let hit = match &self.ting_cur {
            Some(t) => t.dst.get_id() == id,
            None => false,
        };
        if hit {
            self.ting_cur = None;
            self.ting_timer.reset_at(now);
            assert(self@.active =~= old(self)@.active);
        }
    }

    /// Takes the sender of a broadcast for a neighbour: see
    /// `BroadcastView::befriend`.
    fn befriend(&mut self, ktable: &mut Ktable, sender: Addr, id: Id)
        requires
            old(self).wf(),
            old(ktable).wf(),
        ensures
            final(self).wf(),
            final(ktable).wf(),
            (final(self)@, final(ktable)@) == old(self)@.befriend(old(ktable)@, sender, id),
    {
        if !self.connected.contains_key(&sender) {
            self.connected.insert(sender, id);
            ktable.offer(Entry::new(sender, id));
            proof {
                self.connected.lemma_order();
                assert(self@.active =~= old(self)@.active);
            }
        }
    }

    /// Takes a broadcast that arrived from `sender` at the time `now`: see
    /// `BroadcastView::receive`.
    pub fn receive_at(
        &mut self,
        ktable: &mut Ktable,
        msg: Msg,
        sender: Addr,
        now: u64,
        reply_hash: u64,
    ) -> (effects: Vec<Effect>)
        requires
            old(self).wf(),
            old(ktable).wf(),
        ensures
            final(self).wf(),
            final(ktable).wf(),
            (final(self)@, final(ktable)@, views(effects@)) == old(self)@.receive(
                old(ktable)@,
                msg@,
                sender,
                now,
                reply_hash,
            ),
    {
        if !self.cache.insert(msg.hash) {
            let effects: Vec<Effect> = Vec::new();
            assert(views(effects@) =~= Seq::<EffectView>::empty());
            return effects;
        }
        proof {
            assert(self@.active =~= old(self)@.active);
        }
        let Msg { hash, sender_id, payload } = msg;
        match payload {
            MsgPayload::Ting => {
                let my_id = self.my_id;
                let m = Msg { hash: reply_hash, sender_id: my_id, payload: MsgPayload::IsAlive(my_id) };
                let effects = self.broadcast_a_msg(m, None);
                self.befriend(ktable, sender, sender_id);
                effects
            },
            MsgPayload::Msg(m) => {
                let mut effects: Vec<Effect> = Vec::new();
                effects.push(Effect::Deliver(m.as_received()));
                self.befriend(ktable, sender, sender_id);
                let my_id = self.my_id;
                let mut more = self.broadcast_a_msg(
                    Msg { hash, payload: MsgPayload::Msg(m), sender_id: my_id },
                    Some(sender),
                );
                let ghost first = views(effects@);
                let ghost second = views(more@);
                effects.append(&mut more);
                proof {
                    assert(views(effects@) =~= first + second);
                    assert(first =~= seq![
                        EffectView::Deliver(MessageView { is_myself: false, ..m@ }),
                    ]);
                }
                effects
            },
            MsgPayload::IsAlive(alive_id) => {
                self.heard(alive_id, now);
                self.befriend(ktable, sender, sender_id);
                let my_id = self.my_id;
                self.broadcast_a_msg(
                    Msg { hash, payload: MsgPayload::IsAlive(alive_id), sender_id: my_id },
                    Some(sender),
                )
            },
        }
    }
}

/// What becomes of the neighbours and of the routing table when the
/// destinations `dests` of a broadcast are gone through: a destination that
/// did not acknowledge, and is a neighbour, stops being one, and the peer of
/// its identifier leaves the routing table.
pub open spec fn drop_dead(
    c: Peers<Id>,
    t: KtableView,
    h: SendHandleView<()>,
    dests: Seq<Addr>,
) -> (Peers<Id>, KtableView)
    decreases dests.len(),
{
    if dests.len() == 0 {
        (c, t)
    } else {
        let before = drop_dead(c, t, h, dests.drop_last());
        let a = dests.last();
        if h.is_dead(a) && before.0.contains(a) {
            (before.0.remove(a), before.1.delete_id(before.0.map[a]))
        } else {
            before
        }
    }
}

/// Whether one of `dests` did not acknowledge.
pub open spec fn any_dead(h: SendHandleView<()>, dests: Seq<Addr>) -> bool {
    exists|i: int| 0 <= i < dests.len() && h.is_dead(#[trigger] dests[i])
}

/// What a look at the waiting broadcasts comes to.
pub struct Finished {
    /// The neighbours that are left.
    pub connected: Peers<Id>,
    /// The routing table.
    pub table: KtableView,
    /// The broadcasts that still wait.
    pub kept: Seq<ActiveView>,
    /// The messages that did not reach every destination.
    pub resend: Seq<MsgView>,
}

/// The look at the waiting broadcasts, the last one first. A broadcast whose
/// tickets have all reported stops waiting; its dead destinations are dropped
/// (`drop_dead`); and if it has any, its message is to be sent again.
pub open spec fn finish(c: Peers<Id>, t: KtableView, active: Seq<ActiveView>) -> Finished
    decreases active.len(),
{
    if active.len() == 0 {
        Finished { connected: c, table: t, kept: Seq::empty(), resend: Seq::empty() }
    } else {
        let later = finish(c, t, active.drop_first());
        let a = active.first();
        if !a.sendh.is_done() {
            Finished { kept: seq![a] + later.kept, ..later }
        } else {
            let d = drop_dead(later.connected, later.table, a.sendh, a.sendh.all);
            Finished {
                connected: d.0,
                table: d.1,
                kept: later.kept,
                resend: if any_dead(a.sendh, a.sendh.all) {
                    later.resend.push(a.msg)
                } else {
                    later.resend
                },
            }
        }
    }
}

/// The neighbours after the peers `es` were taken for neighbours, those left
/// out whose address is one already.
pub open spec fn adopt(c: Peers<Id>, es: Seq<Entry>) -> Peers<Id>
    decreases es.len(),
{
    if es.len() == 0 {
        c
    } else {
        let before = adopt(c, es.drop_last());
        if before.contains(es.last().sock) {
            before
        } else {
            before.insert(es.last().sock, es.last().id)
        }
    }
}

/// The index of the first waiting broadcast with the tag `tag` that still
/// expects reports.
pub open spec fn first_waiting(active: Seq<ActiveView>, tag: u64) -> Option<int>
    decreases active.len(),
{
    if active.len() == 0 {
        None
    } else {
        match first_waiting(active.drop_last(), tag) {
            Some(i) => Some(i),
            None => if active.last().tag == tag && !active.last().sendh.is_done() {
                Some(active.len() - 1)
            } else {
                None
            },
        }
    }
}

/// The report of a ticket, as the acknowledgement that a handle counts.
pub open spec fn ack(alive: bool) -> Option<()> {
    if alive {
        Some(())
    } else {
        None
    }
}

impl BroadcastView {
    /// The engine after the messages `msgs` were handed to all neighbours, one
    /// after another, and the effects of that.
    pub open spec fn emit_all(self, msgs: Seq<MsgView>) -> (BroadcastView, Seq<EffectView>)
        decreases msgs.len(),
    {
        if msgs.len() == 0 {
            (self, Seq::empty())
        } else {
            let before = self.emit_all(msgs.drop_last());
            let last = before.0.emit(msgs.last(), None);
            (last.0, before.1 + last.1)
        }
    }

    /// The engine after the ticket for `source` of the message sent under
    /// `tag` has reported; `alive` says whether `source` acknowledged. The
    /// report goes to the first waiting broadcast with that tag that still
    /// expects one, else to the probe if it has that tag and expects one, and
    /// is dropped otherwise.
    pub open spec fn process_response(self, tag: u64, source: Addr, alive: bool) -> BroadcastView {
        match first_waiting(self.active, tag) {
            Some(i) => BroadcastView {
                active: self.active.update(
                    i,
                    ActiveView {
                        sendh: self.active[i].sendh.process_response(source, ack(alive)),
                        ..self.active[i]
                    },
                ),
                ..self
            },
            None => match self.ting_cur {
                Some(t) => if t.tag == tag && !t.sendh.is_done() {
                    BroadcastView {
                        ting_cur: Some(
                            TingView { sendh: t.sendh.process_response(source, ack(alive)), ..t },
                        ),
                        ..self
                    }
                } else {
                    self
                },
                None => self,
            },
        }
    }

    /// The engine and the routing table `t` after the look at the waiting
    /// broadcasts (`finish`), and after every message that did not reach all
    /// its destinations was handed to the neighbours that are left; and the
    /// effects of that.
    pub open spec fn advance(self, t: KtableView) -> (BroadcastView, KtableView, Seq<EffectView>) {
        let f = finish(self.connected, t, self.active);
        let out = (BroadcastView { connected: f.connected, active: f.kept, ..self }).emit_all(
            f.resend,
        );
        (out.0, f.table, out.1)
    }

    /// The engine after it has looked for neighbours: with fewer than
    /// `MAX_CONNECTIONS` of them, the first `MAX_CONNECTIONS` peers that the
    /// routing table hands out become neighbours.
    pub open spec fn connect_closest(self, t: KtableView) -> BroadcastView {
        if self.connected.order.len() < MAX_CONNECTIONS {
            BroadcastView {
                connected: adopt(self.connected, t.get(MAX_CONNECTIONS as nat)),
                ..self
            }
        } else {
            self
        }
    }

    /// The engine after the time for a probe was looked at, and the effects of
    /// that. When the time between two probes has run out at `now`: with a
    /// peer `pick` to probe, a `Ting` with the hash `hash` is sent to it, the
    /// hash is remembered, and the probe is under way; without one, the time
    /// starts again.
    pub open spec fn start_ting(self, now: u64, pick: Option<Entry>, hash: u64) -> (
        BroadcastView,
        Seq<EffectView>,
    ) {
        if self.ting_timer.expired_at(now, 100) && self.ting_cur is None {
            match pick {
                Some(ran) => (
                    BroadcastView {
                        ting_timer: TimerView { enabled: false, ..self.ting_timer },
                        cache: self.cache.insert(hash),
                        ting_cur: Some(
                            TingView {
                                dst: ran,
                                timer: TimerView { start: now, duration: TING_WAIT, enabled: false },
                                tag: self.next_tag,
                                sendh: fresh(seq![ran.sock]),
                                sendh_done: false,
                            },
                        ),
                        next_tag: next_tag(self.next_tag),
                        ..self
                    },
                    seq![
                        EffectView::Send {
                            tag: self.next_tag,
                            msg: MsgView {
                                hash,
                                sender_id: self.my_id,
                                payload: MsgPayloadView::Ting,
                            },
                            targets: seq![ran.sock],
                        },
                    ],
                ),
                None => (
                    BroadcastView {
                        ting_timer: TimerView { start: now, enabled: true, ..self.ting_timer },
                        ..self
                    },
                    Seq::empty(),
                ),
            }
        } else {
            (self, Seq::empty())
        }
    }

    /// The engine with no probe under way and the time to the next probe
    /// started at `now`.
    pub open spec fn idle(self, now: u64) -> BroadcastView {
        BroadcastView {
            ting_cur: None,
            ting_timer: TimerView { start: now, enabled: true, ..self.ting_timer },
            ..self
        }
    }

    /// The engine and the routing table `t` after the probe that is under way
    /// was looked at, at the time `now`.
    ///
    /// While the ticket of the probe has not reported, nothing happens. When
    /// it has: a peer that acknowledged gets `TING_WAIT` to make itself heard
    /// through the flood; a peer that did not leaves the routing table, and
    /// the probe is over. When the wait has run out, the peer is reachable but
    /// the flood does not reach it: it becomes a neighbour, and the probe is
    /// over.
    pub open spec fn drive_ting(self, t: KtableView, now: u64) -> (BroadcastView, KtableView) {
        match self.ting_cur {
            None => (self, t),
            Some(ting) => if !ting.sendh_done {
                if !ting.sendh.is_done() {
                    (self, t)
                } else if !ting.sendh.is_dead(ting.dst.sock) {
                    (
                        BroadcastView {
                            ting_cur: Some(
                                TingView {
                                    sendh_done: true,
                                    timer: TimerView { start: now, enabled: true, ..ting.timer },
                                    ..ting
                                },
                            ),
                            ..self
                        },
                        t,
                    )
                } else {
                    (self.idle(now), t.delete_id(ting.dst.id))
                }
            } else if ting.timer.expired_at(now, 100) {
                (
                    (BroadcastView {
                        connected: if self.connected.contains(ting.dst.sock) {
                            self.connected
                        } else {
                            self.connected.insert(ting.dst.sock, ting.dst.id)
                        },
                        ..self
                    }).idle(now),
                    t,
                )
            } else {
                (self, t)
            },
        }
    }

    /// The engine and the routing table after the probe was started if it is
    /// time (`start_ting`) and driven (`drive_ting`), and the effects of that.
    pub open spec fn update_ting(self, t: KtableView, now: u64, pick: Option<Entry>, hash: u64) -> (
        BroadcastView,
        KtableView,
        Seq<EffectView>,
    ) {
        let started = self.start_ting(now, pick, hash);
        let driven = started.0.drive_ting(t, now);
        (driven.0, driven.1, started.1)
    }
}

impl BroadcastManager {
    /// Takes the report of one ticket: see `BroadcastView::process_response`.
    pub fn process_response(&mut self, tag: u64, source: Addr, alive: bool)
        requires
            old(self).wf(),
        ensures
            final(self).wf(),
            final(self)@ == old(self)@.process_response(tag, source, alive),
    {
        let answer: Option<()> = if alive {
            Some(())
        } else {
            None
        };
        let mut i: usize = 0;
        while i < self.active.len()
            invariant
                i <= self.active@.len(),
                *self == *old(self),
                self.wf(),
                answer == ack(alive),
                first_waiting(self@.active.take(i as int), tag) is None,
            decreases self.active@.len() - i,
        {
            proof {
                assert(self@.active.take(i + 1).drop_last() =~= self@.active.take(i as int));
                assert(self@.active.take(i + 1).last() == self.active@[i as int]@);
            }
            if self.active[i].tag == tag && !self.active[i].sendh.is_done() {
                proof {
                    lemma_first_waiting_prefix(self@.active, tag, i + 1);
                }
                self.active[i].sendh.process_response(source, answer);
                proof {
                    assert(self@.active =~= old(self)@.active.update(
                        i as int,
                        ActiveView {
                            sendh: old(self)@.active[i as int].sendh.process_response(
                                source,
                                ack(alive),
                            ),
                            ..old(self)@.active[i as int]
                        },
                    ));
                }
                return ;
            }
            i += 1;
        }
        proof {
            assert(self@.active.take(i as int) =~= self@.active);
        }
        match &mut self.ting_cur {
            Some(t) => {
                if t.tag == tag && !t.sendh.is_done() {
                    t.sendh.process_response(source, answer);
                }
            },
            None => {},
        }
        proof {
            assert(self@.active =~= old(self)@.active);
        }
    }

    /// Drops a neighbour and takes its peer out of the routing table.
    fn remove_connection(&mut self, ktable: &mut Ktable, adr: &Addr)
        requires
            old(self).wf(),
            old(ktable).wf(),
        ensures
            final(self).wf(),
            final(ktable).wf(),
            final(self)@.active == old(self)@.active,
            final(self)@ == (BroadcastView { connected: final(self)@.connected, ..old(self)@ }),
            (final(self)@.connected, final(ktable)@) == if old(self)@.connected.contains(*adr) {
                (
                    old(self)@.connected.remove(*adr),
                    old(ktable)@.delete_id(old(self)@.connected.map[*adr]),
                )
            } else {
                (old(self)@.connected, old(ktable)@)
            },
            (forall|i: int|
                0 <= i < final(self).active@.len() ==> final(self).active@[i] == old(
                    self,
                ).active@[i]),
            final(self).active@.len() == old(self).active@.len(),
    {
        if self.connected.contains_key(adr) {
            let id = self.connected.remove(adr).unwrap();
            ktable.delete_id(id);
            proof {
                self.connected.lemma_order();
                assert(self@.active =~= old(self)@.active);
            }
        }
    }

    /// Goes through the destinations of a broadcast that is over: see
    /// `drop_dead`. The result tells whether one of them was dead.
    fn drop_dead(&mut self, ktable: &mut Ktable, sendh: &SendHandle<()>) -> (want_to_resend: bool)
        requires
            old(self).wf(),
            old(ktable).wf(),
            sendh.wf(),
            sendh@.is_done(),
        ensures
            final(self).wf(),
            final(ktable).wf(),
            final(self)@ == (BroadcastView { connected: final(self)@.connected, ..old(self)@ }),
            (final(self)@.connected, final(ktable)@) == drop_dead(
                old(self)@.connected,
                old(ktable)@,
                sendh@,
                sendh@.all,
            ),
            want_to_resend == any_dead(sendh@, sendh@.all),
            (forall|i: int|
                0 <= i < final(self).active@.len() ==> final(self).active@[i] == old(
                    self,
                ).active@[i]),
            final(self).active@.len() == old(self).active@.len(),
    {
        let all = sendh.iter();
        let mut want_to_resend = false;
        let mut j: usize = 0;
        while j < all.len()
            invariant
                j <= all@.len(),
                all@ == sendh@.all,
                sendh.wf(),
                sendh@.is_done(),
                self.wf(),
                ktable.wf(),
                self@ == (BroadcastView { connected: self@.connected, ..old(self)@ }),
                (self@.connected, ktable@) == drop_dead(
                    old(self)@.connected,
                    old(ktable)@,
                    sendh@,
                    all@.take(j as int),
                ),
                want_to_resend == any_dead(sendh@, all@.take(j as int)),
                (forall|i: int|
                    0 <= i < self.active@.len() ==> self.active@[i] == old(self).active@[i]),
                self.active@.len() == old(self).active@.len(),
            decreases all@.len() - j,
        {
            let a = all[j];
            proof {
                assert(all@.take(j + 1).drop_last() =~= all@.take(j as int));
                assert(all@.take(j + 1).last() == a);
                let head = all@.take(j as int);
                let next = all@.take(j + 1);
                assert(any_dead(sendh@, next) == (any_dead(sendh@, head) || sendh@.is_dead(a))) by {
                    if any_dead(sendh@, head) {
                        let i = choose|i: int| 0 <= i < head.len() && sendh@.is_dead(#[trigger] head[i]);
                        assert(next[i] == head[i]);
                    }
                    if sendh@.is_dead(a) {
                        assert(next[j as int] == a);
                    }
                    if any_dead(sendh@, next) {
                        let i = choose|i: int| 0 <= i < next.len() && sendh@.is_dead(#[trigger] next[i]);
                        if i < j {
                            assert(head[i] == next[i]);
                        }
                    }
                }
            }
            if sendh.is_dead(&a) {
                self.remove_connection(ktable, &a);
                want_to_resend = true;
            }
            j += 1;
        }
        proof {
            assert(all@.take(j as int) =~= all@);
        }
        want_to_resend
    }

    /// Looks at the waiting broadcasts and sends again what did not reach
    /// every destination: see `BroadcastView::advance`.
    pub fn advance(&mut self, ktable: &mut Ktable) -> (effects: Vec<Effect>)
        requires
            old(self).wf(),
            old(ktable).wf(),
        ensures
            final(self).wf(),
            final(ktable).wf(),
            (final(self)@, final(ktable)@, views(effects@)) == old(self)@.advance(old(ktable)@),
    {
        let mut resend: Vec<Msg> = Vec::new();
        let ghost acts = self@.active;
        let ghost c0 = self@.connected;
        let ghost t0 = ktable@;
        let mut i: usize = self.active.len();
        proof {
            assert(acts.skip(i as int) =~= Seq::<ActiveView>::empty());
            assert(self@.active =~= acts.take(i as int) + finish(c0, t0, acts.skip(i as int)).kept);
            assert(resend@.map_values(|m: Msg| m@) =~= Seq::<MsgView>::empty());
        }
        // update and remove done active broadcasts
        while i > 0
            invariant
                i <= acts.len(),
                acts == old(self)@.active,
                self.wf(),
                ktable.wf(),
                self@ == (BroadcastView {
                    connected: self@.connected,
                    active: self@.active,
                    ..old(self)@
                }),
                self@.active == acts.take(i as int) + finish(c0, t0, acts.skip(i as int)).kept,
                self@.connected == finish(c0, t0, acts.skip(i as int)).connected,
                ktable@ == finish(c0, t0, acts.skip(i as int)).table,
                resend@.map_values(|m: Msg| m@) == finish(c0, t0, acts.skip(i as int)).resend,
            decreases i,
        {
            i -= 1;
            let ghost before = self@.active;
            let ghost later = finish(c0, t0, acts.skip(i + 1));
            let ghost old_resend = resend@.map_values(|m: Msg| m@);
            proof {
                assert(acts.skip(i as int).drop_first() =~= acts.skip(i + 1));
                assert(acts.skip(i as int).first() == acts[i as int]);
                assert(before.len() == i + 1 + later.kept.len());
                assert(before.len() == self.active@.len());
                assert(before[i as int] == acts[i as int]);
                assert(self.active@[i as int]@ == before[i as int]);
            }
            if self.active[i].sendh.is_done() {
                let Active { tag: _, msg, sendh } = self.active.remove(i);
                proof {
                    assert(self@.active =~= before.remove(i as int));
                    assert(before.remove(i as int) =~= acts.take(i as int) + later.kept);
                }
                let ghost mid = self@.active;
                let want_to_resend = self.drop_dead(ktable, &sendh);
                proof {
                    assert(self@.active =~= mid);
                }
                if want_to_resend {
                    resend.push(msg);
                    proof {
                        assert(resend@.map_values(|m: Msg| m@) =~= old_resend.push(msg@));
                    }
                }
            } else {
                proof {
                    assert(self@.active =~= acts.take(i as int) + (seq![acts[i as int]]
                        + later.kept));
                }
            }
        }
        proof {
            assert(acts.skip(0) =~= acts);
            assert(acts.take(0) + finish(c0, t0, acts).kept =~= finish(c0, t0, acts).kept);
        }
        // resend stuff where at least one connection didn't respond
        let ghost msgs = resend@.map_values(|m: Msg| m@);
        let ghost s1 = self@;
        let mut effects: Vec<Effect> = Vec::new();
        let mut r: usize = 0;
        proof {
            assert(msgs.take(0) =~= Seq::<MsgView>::empty());
            assert(views(effects@) =~= Seq::<EffectView>::empty());
        }
        while r < resend.len()
            invariant
                r <= resend@.len(),
                msgs == resend@.map_values(|m: Msg| m@),
                self.wf(),
                (self@, views(effects@)) == s1.emit_all(msgs.take(r as int)),
            decreases resend@.len() - r,
        {
            proof {
                assert(msgs.take(r + 1).drop_last() =~= msgs.take(r as int));
                assert(msgs.take(r + 1).last() == resend@[r as int]@);
            }
            let m = resend[r].duplicate();
            let mut more = self.broadcast_a_msg(m, None);
            let ghost first = views(effects@);
            let ghost second = views(more@);
            effects.append(&mut more);
            proof {
                assert(views(effects@) =~= first + second);
            }
            r += 1;
        }
        proof {
            assert(msgs.take(r as int) =~= msgs);
        }
        effects
    }

    /// try to connect to peers if we are connected to too few: see
    /// `BroadcastView::connect_closest`.
    pub fn connect_closest(&mut self, ktable: &Ktable)
        requires
            old(self).wf(),
            ktable.wf(),
        ensures
            final(self).wf(),
            final(self)@ == old(self)@.connect_closest(ktable@),
    {
        if self.connected.len() < MAX_CONNECTIONS as usize {
            let closest = ktable.get(MAX_CONNECTIONS);
            let mut i: usize = 0;
            proof {
                assert(closest@.take(0) =~= Seq::<Entry>::empty());
            }
            while i < closest.len()
                invariant
                    i <= closest@.len(),
                    self.wf(),
                    self@ == (BroadcastView { connected: self@.connected, ..old(self)@ }),
                    self@.connected == adopt(old(self)@.connected, closest@.take(i as int)),
                decreases closest@.len() - i,
            {
                proof {
                    assert(closest@.take(i + 1).drop_last() =~= closest@.take(i as int));
                    assert(closest@.take(i + 1).last() == closest@[i as int]);
                }
                let c = closest[i];
                if !self.connected.contains_key(&c.get_addr()) {
                    let ghost acts = self@.active;
                    self.connected.insert(c.get_addr(), c.get_id());
                    proof {
                        self.connected.lemma_order();
                        assert(self@.active =~= acts);
                    }
                }
                i += 1;
            }
            proof {
                assert(closest@.take(i as int) =~= closest@);
            }
        }
    }

    /// Starts a probe if it is time, and drives the probe that is under way:
    /// see `BroadcastView::update_ting`. `pick` is the peer to probe, `hash`
    /// the hash of the probe.
    pub fn update_ting_at(
        &mut self,
        ktable: &mut Ktable,
        now: u64,
        pick: Option<Entry>,
        hash: u64,
    ) -> (effects: Vec<Effect>)
        requires
            old(self).wf(),
            old(ktable).wf(),
        ensures
            final(self).wf(),
            final(ktable).wf(),
            (final(self)@, final(ktable)@, views(effects@)) == old(self)@.update_ting(
                old(ktable)@,
                now,
                pick,
                hash,
            ),
    {
        let mut effects: Vec<Effect> = Vec::new();
        let ghost acts = self@.active;
        // check if ting should be started
        if self.ting_timer.expired_at(now, 100) && self.ting_cur.is_none() {
            match pick {
                Some(ran) => {
                    self.ting_timer.disable();
                    let m = Msg { hash, payload: MsgPayload::Ting, sender_id: self.my_id };
                    let tag = self.next_tag;
                    self.next_tag = if tag == u64::MAX {
                        0
                    } else {
                        tag + 1
                    };
                    let mut targets: Vec<Addr> = Vec::new();
                    targets.push(ran.get_addr());
                    let mut dests: Vec<Addr> = Vec::new();
                    dests.push(ran.get_addr());
                    assert(targets@ =~= seq![ran.sock]);
                    assert(dests@ =~= seq![ran.sock]);
                    self.cache.insert(m.hash);
                    let mut t = Timer::started_at(now, TING_WAIT);
                    t.disable();
                    self.ting_cur = Some(
                        Ting {
                            dst: ran,
                            sendh: SendHandle::new(dests),
                            tag,
                            sendh_done: false,
                            timer: t,
                        },
                    );
                    effects.push(Effect::Send { tag, msg: m, targets });
                },
                None => {
                    self.ting_timer.reset_at(now);
                },
            }
        }
        proof {
            assert(self@.active =~= acts);
            assert(views(effects@) =~= old(self)@.start_ting(now, pick, hash).1);
            assert(self@ == old(self)@.start_ting(now, pick, hash).0);
        }
        let ghost started = self@;
        // update ongoing ting
        let mut over = false;
        let mut bridge: Option<Entry> = None;
        let mut dead: Option<Id> = None;
        match &mut self.ting_cur {
            Some(ting) => {
                if !ting.sendh_done {
                    if ting.sendh.is_done() {
                        ting.sendh_done = true;
                        if ting.sendh.borrow_single_answer().is_some() {
                            ting.timer.reset_at(now);
                        } else {
                            dead = Some(ting.dst.get_id());
                            over = true;
                        }
                    }
                } else if ting.timer.expired_at(now, 100) {
                    bridge = Some(ting.dst);
                    over = true;
                }
            },
            None => {},
        }
        match dead {
            Some(id) => {
                ktable.delete_id(id);
            },
            None => {},
        }
        match bridge {
            Some(i) => {
                if !self.connected.contains_key(&i.get_addr()) {
                    self.connected.insert(i.get_addr(), i.get_id());
                }
            },
            None => {},
        }
        if over {
            self.ting_timer.reset_at(now);
            self.ting_cur = None;
        }
        proof {
            self.connected.lemma_order();
            assert(self@.active =~= acts);
            assert(self@ == started.drive_ting(old(ktable)@, now).0);
        }
        effects
    }
}

/// Where the first waiting broadcast with a tag is found among the first `k`,
/// it is the first among all.
pub proof fn lemma_first_waiting_prefix(active: Seq<ActiveView>, tag: u64, k: int)
    requires
        0 <= k <= active.len(),
        first_waiting(active.take(k), tag) is Some,
    ensures
        first_waiting(active, tag) == first_waiting(active.take(k), tag),
    decreases active.len() - k,
{
    if k < active.len() {
        assert(active.take(k + 1).drop_last() =~= active.take(k));
        lemma_first_waiting_prefix(active, tag, k + 1);
    } else {
        assert(active.take(k) =~= active);
    }
}

/// A broadcast that has come in on the broadcast service.
#[derive(Debug)]
pub struct Inbound {
    /// The message.
    pub msg: Msg,
    /// The peer that handed it to us.
    pub sender: Addr,
}

/// The view of `Inbound`.
pub struct InboundView {
    pub msg: MsgView,
    pub sender: Addr,
}

impl View for Inbound {
    type V = InboundView;

    open spec fn view(&self) -> InboundView {
        InboundView { msg: self.msg@, sender: self.sender }
    }
}

/// The views of a list of broadcasts that have come in.
pub open spec fn inbound_views(s: Seq<Inbound>) -> Seq<InboundView> {
    s.map_values(|i: Inbound| i@)
}

/// The first `n` entries of `s`, or all of them where there are fewer.
pub open spec fn at_most<A>(s: Seq<A>, n: nat) -> Seq<A> {
    if n <= s.len() {
        s.take(n as int)
    } else {
        s
    }
}

impl BroadcastView {
    /// The engine and the routing table after the broadcasts `inbound` were
    /// taken one after another, and the effects of that. The probe that comes
    /// as number `i` is answered under the hash `hashes[i]`.
    pub open spec fn receive_all(
        self,
        t: KtableView,
        inbound: Seq<InboundView>,
        now: u64,
        hashes: Seq<u64>,
    ) -> (BroadcastView, KtableView, Seq<EffectView>)
        decreases inbound.len(),
    {
        if inbound.len() == 0 {
            (self, t, Seq::empty())
        } else {
            let before = self.receive_all(t, inbound.drop_last(), now, hashes);
            let last = before.0.receive(
                before.1,
                inbound.last().msg,
                inbound.last().sender,
                now,
                hashes[inbound.len() - 1],
            );
            (last.0, last.1, before.2 + last.2)
        }
    }

    /// The first three steps of a round of the engine: the look at the waiting
    /// broadcasts (`advance`), the look for neighbours (`connect_closest`), and
    /// the first `BATCH` broadcasts that have come in (`receive_all`).
    pub open spec fn before_ting(
        self,
        t: KtableView,
        now: u64,
        inbound: Seq<InboundView>,
        hashes: Seq<u64>,
    ) -> (BroadcastView, KtableView, Seq<EffectView>) {
        let a = self.advance(t);
        let r = a.0.connect_closest(a.1).receive_all(a.1, at_most(inbound, BATCH as nat), now, hashes);
        (r.0, r.1, a.2 + r.2)
    }

    /// A round of the engine: the three steps of `before_ting`, and then the
    /// probe (`update_ting`).
    pub open spec fn tick(
        self,
        t: KtableView,
        now: u64,
        inbound: Seq<InboundView>,
        hashes: Seq<u64>,
        pick: Option<Entry>,
        ting_hash: u64,
    ) -> (BroadcastView, KtableView, Seq<EffectView>) {
        let b = self.before_ting(t, now, inbound, hashes);
        let u = b.0.update_ting(b.1, now, pick, ting_hash);
        (u.0, u.1, b.2 + u.2)
    }
}

impl BroadcastManager {
    /// Takes a broadcast that arrived from `sender`, at the present time: see
    /// `BroadcastView::receive`. The hash of the answer to a probe is drawn at
    /// random.
    pub fn receive(&mut self, ktable: &mut Ktable, msg: Msg, sender: Addr) -> (effects: Vec<
        Effect,
    >)
        requires
            old(self).wf(),
            old(ktable).wf(),
        ensures
            final(self).wf(),
            final(ktable).wf(),
            exists|now: u64, reply_hash: u64|
                (final(self)@, final(ktable)@, views(effects@)) == #[trigger] old(self)@.receive(
                    old(ktable)@,
                    msg@,
                    sender,
                    now,
                    reply_hash,
                ),
            old(self)@.cache.contains(msg@.hash) ==> effects@.len() == 0 && final(self)@ == old(
                self,
            )@ && final(ktable)@ == old(ktable)@,
    {
        let now = now_millis();
        let reply_hash = get_hash();
        let ghost m = msg@;
        let effects = self.receive_at(ktable, msg, sender, now, reply_hash);
        proof {
            if old(self)@.cache.contains(m.hash) {
                assert(views(effects@).len() == 0);
            }
        }
        effects
    }

    /// Takes the first `BATCH` of the broadcasts `inbound`, one after another:
    /// see `BroadcastView::receive_all`. The result lists the effects, and the
    /// hashes that were drawn for answers to probes.
    fn receive_batch(&mut self, ktable: &mut Ktable, inbound: Vec<Inbound>, now: u64) -> (r: (
        Vec<Effect>,
        Ghost<Seq<u64>>,
    ))
        requires
            old(self).wf(),
            old(ktable).wf(),
        ensures
            final(self).wf(),
            final(ktable).wf(),
            (final(self)@, final(ktable)@, views(r.0@)) == old(self)@.receive_all(
                old(ktable)@,
                at_most(inbound_views(inbound@), BATCH as nat),
                now,
                r.1@,
            ),
    {
        let mut inbound = inbound;
        let ghost all = inbound_views(inbound@);
        let ghost batch = at_most(all, BATCH as nat);
        let mut effects: Vec<Effect> = Vec::new();
        let ghost mut hashes: Seq<u64> = Seq::empty();
        let mut count: usize = 0;
        proof {
            assert(batch.take(0) =~= Seq::<InboundView>::empty());
            assert(views(effects@) =~= Seq::<EffectView>::empty());
            assert(inbound_views(inbound@) =~= all.skip(0));
        }
        while count < BATCH && inbound.len() > 0
            invariant
                count <= BATCH,
                count <= batch.len(),
                batch == at_most(all, BATCH as nat),
                inbound_views(inbound@) == all.skip(count as int),
                count + inbound@.len() == all.len(),
                hashes.len() == count,
                self.wf(),
                ktable.wf(),
                (self@, ktable@, views(effects@)) == old(self)@.receive_all(
                    old(ktable)@,
                    batch.take(count as int),
                    now,
                    hashes,
                ),
            decreases inbound@.len(),
        {
            let ghost rest = inbound_views(inbound@);
            let ghost queue = inbound@;
            let Inbound { msg, sender } = inbound.remove(0);
            let reply_hash = get_hash();
            proof {
                assert(rest[0] == all[count as int]);
                assert(msg@ == all[count as int].msg);
                assert(forall|j: int| 0 <= j < inbound@.len() ==> inbound@[j] == queue[j + 1]);
                assert forall|j: int| 0 <= j < inbound@.len() implies inbound_views(inbound@)[j]
                    == all.skip(count + 1)[j] by {
                    assert(rest[j + 1] == queue[j + 1]@);
                }
                assert(inbound_views(inbound@) =~= all.skip(count + 1));
                assert(batch.take(count + 1).drop_last() =~= batch.take(count as int));
                assert(batch.take(count + 1).last() == all[count as int]);
                lemma_receive_all_hashes(
                    old(self)@,
                    old(ktable)@,
                    batch.take(count as int),
                    now,
                    hashes,
                    hashes.push(reply_hash),
                );
                hashes = hashes.push(reply_hash);
            }
            let mut more = self.receive_at(ktable, msg, sender, now, reply_hash);
            let ghost first = views(effects@);
            let ghost second = views(more@);
            effects.append(&mut more);
            proof {
                assert(views(effects@) =~= first + second);
            }
            count += 1;
        }
        proof {
            assert(batch.take(count as int) =~= batch);
        }
        (effects, Ghost(hashes))
    }

    /// One round of the engine, at the present time: the waiting broadcasts are
    /// looked at and what did not arrive is sent again; neighbours are looked
    /// for; the first `BATCH` broadcasts of `inbound` are taken; and the probe
    /// is started or driven. The result lists the effects to bring about.
    ///
    /// The time and the random numbers are read inside. Whatever they are, the
    /// round is `BroadcastView::tick` for them; and the peer to probe is drawn
    /// from the routing table as it stands after the third step.
    pub fn update(&mut self, ktable: &mut Ktable, inbound: Vec<Inbound>) -> (effects: Vec<Effect>)
        requires
            old(self).wf(),
            old(ktable).wf(),
        ensures
            final(self).wf(),
            final(ktable).wf(),
            exists|now: u64, hashes: Seq<u64>, pick: Option<Entry>, ting_hash: u64|
                {
                    &&& (final(self)@, final(ktable)@, views(effects@)) == #[trigger] old(
                        self,
                    )@.tick(
                        old(ktable)@,
                        now,
                        inbound_views(inbound@),
                        hashes,
                        pick,
                        ting_hash,
                    )
                    &&& pick is None <==> old(self)@.before_ting(
                        old(ktable)@,
                        now,
                        inbound_views(inbound@),
                        hashes,
                    ).1.entries().len() == 0
                    &&& pick matches Some(e) ==> old(self)@.before_ting(
                        old(ktable)@,
                        now,
                        inbound_views(inbound@),
                        hashes,
                    ).1.entries().contains(e)
                },
    {
        let now = now_millis();
        let ghost all = inbound_views(inbound@);
        let mut effects = self.advance(ktable);
        self.connect_closest(ktable);
        let (mut received, Ghost(hashes)) = self.receive_batch(ktable, inbound, now);
        let ghost first = views(effects@);
        let ghost second = views(received@);
        effects.append(&mut received);
        proof {
            assert(views(effects@) =~= first + second);
            assert((self@, ktable@, views(effects@)) == old(self)@.before_ting(
                old(ktable)@,
                now,
                all,
                hashes,
            ));
        }
        let pick = ktable.random();
        let ting_hash = get_hash();
        let mut probe = self.update_ting_at(ktable, now, pick, ting_hash);
        let ghost third = views(effects@);
        let ghost fourth = views(probe@);
        effects.append(&mut probe);
        proof {
            assert(views(effects@) =~= third + fourth);
            assert((self@, ktable@, views(effects@)) == old(self)@.tick(
                old(ktable)@,
                now,
                all,
                hashes,
                pick,
                ting_hash,
            ));
        }
        effects
    }
}

/// Only the hashes of the broadcasts that are taken matter to `receive_all`.
pub proof fn lemma_receive_all_hashes(
    s: BroadcastView,
    t: KtableView,
    inbound: Seq<InboundView>,
    now: u64,
    h1: Seq<u64>,
    h2: Seq<u64>,
)
    requires
        inbound.len() <= h1.len() <= h2.len(),
        forall|i: int| 0 <= i < inbound.len() ==> h1[i] == h2[i],
    ensures
        s.receive_all(t, inbound, now, h1) == s.receive_all(t, inbound, now, h2),
    decreases inbound.len(),
{
    if inbound.len() > 0 {
        lemma_receive_all_hashes(s, t, inbound.drop_last(), now, h1, h2);
    }
}

} // verus!
