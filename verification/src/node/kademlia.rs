//! The Kademlia protocol: answering pings and lookups, and the iterative
//! lookup that walks towards the peers nearest to an identifier.

use vstd::prelude::*;
use crate::common::id::Id;
use crate::network::addrmap::AddrMap;
use crate::network::addrmap::AddrSet;
use crate::network::udpmanager::SendHandle;
use crate::network::udpmanager::SendHandleView;
use crate::network::Addr;
use crate::network::NetworkError;
use crate::tracker::api::LookupSession;
use crate::tracker::TrackQuery;
use crate::node::ktable::closest;
use crate::node::ktable::sorted_from;
use crate::node::ktable::without_id;
use crate::node::ktable::Entry;
use crate::node::ktable::Ktable;
use crate::node::ktable::KtableView;

verus! {

/// The number of peers that a lookup is after, and the capacity of a bucket.
pub const K: usize = 3;

/// The number of requests that a peer answers in one go.
pub const BATCH: usize = 10;

/// The messages of the protocol.
#[derive(Debug)]
pub enum KadMsg {
    /// checks if another host is alive
    Ping,
    /// answer to `Ping`
    Pong(Id),
    /// requests id to be looked up
    /// Lookup(id_to_lookup, requester_entry)
    Lookup(Id, Entry),
    /// answer to lookup
    Answer(Vec<Entry>),
}

/// What a message of the protocol holds.
pub enum KadMsgView {
    Ping,
    Pong(Id),
    Lookup(Id, Entry),
    Answer(Seq<Entry>),
}

impl View for KadMsg {
    type V = KadMsgView;

    open spec fn view(&self) -> KadMsgView {
        match self {
            KadMsg::Ping => KadMsgView::Ping,
            KadMsg::Pong(id) => KadMsgView::Pong(*id),
            KadMsg::Lookup(id, e) => KadMsgView::Lookup(*id, *e),
            KadMsg::Answer(v) => KadMsgView::Answer(v@),
        }
    }
}

impl KadMsg {
    pub fn is_pong(&self) -> (r: bool)
        ensures
            r == (*self is Pong),
    {
        match self {
            KadMsg::Pong(_) => true,
            _ => false,
        }
    }

    pub fn is_answer(&self) -> (r: bool)
        ensures
            r == (*self is Answer),
    {
        match self {
            KadMsg::Answer(_) => true,
            _ => false,
        }
    }
}

/// A request that has come in on the Kademlia service.
#[derive(Debug)]
pub struct Inbound {
    /// The message.
    pub msg: KadMsg,
    /// The peer that sent it.
    pub sender: Addr,
    /// The session, to be named in the reply.
    pub id: u64,
}

/// A reply to a request.
#[derive(Debug)]
pub struct Reply {
    /// The message.
    pub msg: KadMsg,
    /// The session of the request.
    pub id: u64,
    /// The peer that asked.
    pub to: Addr,
}

/// What a reply holds.
pub struct ReplyView {
    pub msg: KadMsgView,
    pub id: u64,
    pub to: Addr,
}

impl View for Reply {
    type V = ReplyView;

    open spec fn view(&self) -> ReplyView {
        ReplyView { msg: self.msg@, id: self.id, to: self.to }
    }
}

/// The first `n` entries of `s`, or all of them where there are fewer.
pub open spec fn at_most(s: Seq<Entry>, n: nat) -> Seq<Entry> {
    if n <= s.len() {
        s.take(n as int)
    } else {
        s
    }
}

/// The peers that answer a lookup of `target` by `requester`: the `K` nearest
/// to `target` that the table knows, the requester itself left out.
pub open spec fn lookup_answer(t: KtableView, target: Id, requester: Entry) -> Seq<Entry> {
    at_most(without_id(t.closest_to((K + 1) as nat, target), requester.id), K as nat)
}

/// The table after a request, and the reply that it gets. A ping is answered
/// with a pong that carries `my_id`. A lookup is answered with the nearest
/// peers, and the requester is offered to the table. Any other message gets no
/// reply.
pub open spec fn respond(t: KtableView, my_id: Id, msg: KadMsgView) -> (
    KtableView,
    Option<KadMsgView>,
) {
    match msg {
        KadMsgView::Ping => (t, Some(KadMsgView::Pong(my_id))),
        KadMsgView::Lookup(target, requester) => (
            t.offer(requester),
            Some(KadMsgView::Answer(lookup_answer(t, target, requester))),
        ),
        _ => (t, None),
    }
}

/// The view of an optional message.
pub open spec fn view_of(m: Option<KadMsg>) -> Option<KadMsgView> {
    match m {
        Some(m) => Some(m@),
        None => None,
    }
}

/// The entries of `v` whose identifier is not `id`, in their order.
fn retain_other(v: Vec<Entry>, id: Id) -> (r: Vec<Entry>)
    ensures
        r@ == without_id(v@, id),
{
    let mut r: Vec<Entry> = Vec::new();
    let mut i: usize = 0;
    proof {
        reveal(Seq::filter);
        assert(v@.take(0) =~= Seq::<Entry>::empty());
    }
    while i < v.len()
        invariant
            i <= v@.len(),
            r@ == without_id(v@.take(i as int), id),
        decreases v@.len() - i,
    {
        proof {
            reveal(Seq::filter);
            assert(v@.take(i + 1).drop_last() =~= v@.take(i as int));
            assert(v@.take(i + 1).last() == v@[i as int]);
        }
        if v[i].id != id {
            r.push(v[i]);
        }
        i += 1;
    }
    proof {
        assert(v@.take(i as int) =~= v@);
    }
    r
}

/// Answers one request: see `respond`.
pub fn handle_one(msg: KadMsg, my_id: Id, ktable: &mut Ktable) -> (reply: Option<KadMsg>)
    requires
        old(ktable).wf(),
    ensures
        final(ktable).wf(),
        (final(ktable)@, view_of(reply)) == respond(old(ktable)@, my_id, msg@),
{
    match msg {
        KadMsg::Ping => Some(KadMsg::Pong(my_id)),
        KadMsg::Lookup(look_id, requester_entry) => {
            let closest = ktable.closest_to(K as u32 + 1, look_id);
            ktable.offer(requester_entry);
            let mut closest = retain_other(closest, requester_entry.get_id());
            let ghost kept = closest@;
            if closest.len() > K {
                closest.truncate(K);
            }
            proof {
                assert(closest@ =~= at_most(kept, K as nat));
                assert(kept == without_id(
                    old(ktable)@.closest_to((K + 1) as nat, look_id),
                    requester_entry.id,
                ));
            }
            Some(KadMsg::Answer(closest))
        },
        _ => None,
    }
}

/// The table after the requests `reqs` were answered one after another, and
/// the replies in the order of the requests.
pub open spec fn handle_all(t: KtableView, my_id: Id, reqs: Seq<Inbound>) -> (
    KtableView,
    Seq<ReplyView>,
)
    decreases reqs.len(),
{
    if reqs.len() == 0 {
        (t, Seq::empty())
    } else {
        let before = handle_all(t, my_id, reqs.drop_last());
        let last = reqs.last();
        let step = respond(before.0, my_id, last.msg@);
        match step.1 {
            Some(m) => (step.0, before.1.push(ReplyView { msg: m, id: last.id, to: last.sender })),
            None => (step.0, before.1),
        }
    }
}

/// The requests that are answered in one go: the first `BATCH`.
pub open spec fn at_most_requests(requests: Seq<Inbound>) -> Seq<Inbound> {
    requests.take(
        if requests.len() < BATCH {
            requests.len() as int
        } else {
            BATCH as int
        },
    )
}

/// handles many kademlia messages: the first `BATCH` of `requests`, in their
/// order. The result holds the replies to send.
pub fn handle_msg(requests: Vec<Inbound>, my_id: Id, ktable: &mut Ktable) -> (replies: Vec<Reply>)
    requires
        old(ktable).wf(),
    ensures
        final(ktable).wf(),
        final(ktable)@ == handle_all(old(ktable)@, my_id, at_most_requests(requests@)).0,
        replies@.map_values(|r: Reply| r@) == handle_all(
            old(ktable)@,
            my_id,
            at_most_requests(requests@),
        ).1,
{
    let mut requests = requests;
    let ghost all = requests@;
    if requests.len() > BATCH {
        requests.truncate(BATCH);
    }
    let ghost reqs = requests@;
    assert(reqs =~= all.take(if all.len() < BATCH { all.len() as int } else { BATCH as int }));
    let mut replies: Vec<Reply> = Vec::new();
    let mut done: usize = 0;
    // the requests are taken from the end of a reversed list, so that each is moved out once
    let mut rest: Vec<Inbound> = Vec::new();
    while requests.len() > 0
        invariant
            rest@.len() + requests@.len() == reqs.len(),
            forall|j: int| 0 <= j < requests@.len() ==> requests@[j] == reqs[j],
            forall|j: int| 0 <= j < rest@.len() ==> rest@[j] == reqs[reqs.len() - 1 - j],
        decreases requests@.len(),
    {
        let r = requests.pop().unwrap();
        rest.push(r);
    }
    proof {
        assert(reqs.take(0) =~= Seq::<Inbound>::empty());
        assert(replies@.map_values(|r: Reply| r@) =~= Seq::<ReplyView>::empty());
    }
    while rest.len() > 0
        invariant
            ktable.wf(),
            reqs.len() <= BATCH,
            done + rest@.len() == reqs.len(),
            forall|j: int| 0 <= j < rest@.len() ==> rest@[j] == reqs[reqs.len() - 1 - j],
            ktable@ == handle_all(old(ktable)@, my_id, reqs.take(done as int)).0,
            replies@.map_values(|r: Reply| r@) == handle_all(
                old(ktable)@,
                my_id,
                reqs.take(done as int),
            ).1,
        decreases rest@.len(),
    {
        let Inbound { msg, sender, id } = rest.pop().unwrap();
        proof {
            assert(reqs.take(done + 1).drop_last() =~= reqs.take(done as int));
            assert(reqs.take(done + 1).last() == reqs[done as int]);
        }
        let ghost before = replies@.map_values(|r: Reply| r@);
        match handle_one(msg, my_id, ktable) {
            Some(m) => {
                replies.push(Reply { msg: m, id, to: sender });
                proof {
                    assert(replies@.map_values(|r: Reply| r@) =~= before.push(
                        ReplyView { msg: m@, id, to: sender },
                    ));
                }
            },
            None => {},
        }
        done += 1;
    }
    proof {
        assert(reqs.take(done as int) =~= reqs);
    }
    replies
}

/// simply checks whether the answer to a ping shows an alive kademlia node and
/// returns its id
pub fn is_alive(answer: Option<KadMsg>) -> (id: Option<Id>)
    ensures
        id == match answer {
            Some(KadMsg::Pong(id)) => Some(id),
            _ => None,
        },
{
    match answer {
        Some(KadMsg::Pong(id)) => Some(id),
        Some(_) => None,
        None => None,
    }
}

/// The two tables of a lookup: the peer's routing table, and the best peers
/// found so far.
pub struct Tables {
    /// The routing table of the peer.
    pub shared: KtableView,
    /// The best peers of the lookup: a table around the target.
    pub best: KtableView,
}

impl Tables {
    /// Both tables after `a` was offered to them.
    pub open spec fn offer(self, a: Entry) -> Tables {
        Tables { shared: self.shared.offer(a), best: self.best.offer(a) }
    }

    /// Both tables without the peer `id`.
    pub open spec fn delete_id(self, id: Id) -> Tables {
        Tables { shared: self.shared.delete_id(id), best: self.best.delete_id(id) }
    }

    /// Both tables are in order.
    pub open spec fn wf(self) -> bool {
        self.shared.wf() && self.best.wf()
    }
}

/// The tables after the peers of an answer were offered to them, those left
/// out whose address has been visited.
pub open spec fn absorb(tables: Tables, visited: Set<Addr>, answer: Seq<Entry>) -> Tables
    decreases answer.len(),
{
    if answer.len() == 0 {
        tables
    } else {
        let before = absorb(tables, visited, answer.drop_last());
        if visited.contains(answer.last().sock) {
            before
        } else {
            before.offer(answer.last())
        }
    }
}

/// The tables after the outcome of the request to `c` was taken in: a peer
/// that did not answer leaves both tables; the peers that an answer names are
/// absorbed; any other message changes nothing.
pub open spec fn settle_one(
    tables: Tables,
    visited: Set<Addr>,
    ids: Map<Addr, Id>,
    responses: Map<Addr, KadMsg>,
    c: Addr,
) -> Tables {
    if !responses.contains_key(c) {
        tables.delete_id(ids[c])
    } else {
        match responses[c] {
            KadMsg::Answer(v) => absorb(tables, visited, v@),
            _ => tables,
        }
    }
}

/// The tables after the outcomes of the requests to `dests` were taken in, one
/// after another.
pub open spec fn settle(
    tables: Tables,
    visited: Set<Addr>,
    ids: Map<Addr, Id>,
    responses: Map<Addr, KadMsg>,
    dests: Seq<Addr>,
) -> Tables
    decreases dests.len(),
{
    if dests.len() == 0 {
        tables
    } else {
        settle_one(
            settle(tables, visited, ids, responses, dests.drop_last()),
            visited,
            ids,
            responses,
            dests.last(),
        )
    }
}

/// The destinations of a round: the peers of `s` in their order, those left
/// out whose address has been visited, until `limit` addresses are chosen.
/// The result maps each chosen address to the identifier of the last chosen
/// peer with that address, and lists the addresses in the order in which they
/// were chosen.
pub open spec fn fill(s: Seq<Entry>, visited: Set<Addr>, limit: nat) -> (Map<Addr, Id>, Seq<Addr>)
    decreases s.len(),
{
    if s.len() == 0 {
        (Map::empty(), Seq::empty())
    } else {
        let before = fill(s.drop_last(), visited, limit);
        let b = s.last();
        if before.1.len() >= limit || visited.contains(b.sock) {
            before
        } else {
            (
                before.0.insert(b.sock, b.id),
                if before.0.contains_key(b.sock) {
                    before.1
                } else {
                    before.1.push(b.sock)
                },
            )
        }
    }
}

/// Whether the address of every peer of `s` has been visited.
pub open spec fn looked_at_all(s: Seq<Entry>, visited: Set<Addr>) -> bool {
    forall|i: int| 0 <= i < s.len() ==> visited.contains((#[trigger] s[i]).sock)
}

/// Chooses the destinations of a round: see `fill`.
fn fill_map(entries: &Vec<Entry>, visited: &AddrSet, limit: usize) -> (m: AddrMap<Id>)
    ensures
        m.wf(),
        (m@, m.order()) == fill(entries@, visited@, limit as nat),
        m.order().len() <= limit,
{
    let mut m: AddrMap<Id> = AddrMap::new();
    let mut i: usize = 0;
    proof {
        assert(entries@.take(0) =~= Seq::<Entry>::empty());
    }
    while i < entries.len()
        invariant
            i <= entries@.len(),
            m.wf(),
            (m@, m.order()) == fill(entries@.take(i as int), visited@, limit as nat),
            m.order().len() <= limit,
        decreases entries@.len() - i,
    {
        proof {
            assert(entries@.take(i + 1).drop_last() =~= entries@.take(i as int));
            assert(entries@.take(i + 1).last() == entries@[i as int]);
        }
        let b = entries[i];
        if m.len() < limit && !visited.contains(&b.get_addr()) {
            m.insert(b.get_addr(), b.get_id());
        }
        i += 1;
    }
    proof {
        assert(entries@.take(i as int) =~= entries@);
    }
    m
}

/// represents an ongoing id lookup
pub struct IdLookup {
    target: Id,
    myself: Entry,
    visited: AddrSet,
    best: Ktable,
    cur: Option<SendHandle<KadMsg>>,
    map: AddrMap<Id>,
}

/// What a lookup holds.
pub struct IdLookupView {
    /// The identifier that is looked up.
    pub target: Id,
    /// The peer that looks.
    pub myself: Entry,
    /// The addresses that have been asked.
    pub visited: Set<Addr>,
    /// The best peers found so far.
    pub best: KtableView,
    /// The identifiers of the peers that are asked in this round.
    pub ids: Map<Addr, Id>,
    /// The addresses that are asked in this round, in the order of asking.
    pub dests: Seq<Addr>,
    /// The request of this round; `None` when the lookup is done.
    pub cur: Option<SendHandleView<KadMsg>>,
}

impl View for IdLookup {
    type V = IdLookupView;

    closed spec fn view(&self) -> IdLookupView {
        IdLookupView {
            target: self.target,
            myself: self.myself,
            visited: self.visited@,
            best: self.best@,
            ids: self.map@,
            dests: self.map.order(),
            cur: match self.cur {
                Some(h) => Some(h@),
                None => None,
            },
        }
    }
}

impl IdLookupView {
    /// The request of a round to `dests`, just sent.
    pub open spec fn fresh(dests: Seq<Addr>) -> Option<SendHandleView<KadMsg>> {
        if dests.len() == 0 {
            None
        } else {
            Some(
                SendHandleView {
                    count: dests.len(),
                    all: dests,
                    responses: Map::<Addr, KadMsg>::empty(),
                },
            )
        }
    }

    /// Whether a round has ended and waits to be taken in.
    pub open spec fn round_over(self) -> bool {
        self.cur matches Some(h) && h.is_done()
    }

    /// The lookup and the peer's routing table `t` after the round that has
    /// ended was taken in.
    ///
    /// Every destination counts as visited. The outcomes of the requests are
    /// taken into both tables (`settle`). If the `K + 1` best peers have all
    /// been visited, the lookup is done. Otherwise a new round asks up to `K`
    /// of the best peers that have not been visited.
    pub open spec fn round(self, t: KtableView) -> (IdLookupView, KtableView) {
        let h = self.cur->Some_0;
        let visited = self.visited.union(h.all.to_set());
        let tables = settle(
            Tables { shared: t, best: self.best },
            visited,
            self.ids,
            h.responses,
            h.all,
        );
        let all = tables.best.get(u32::MAX as nat);
        if looked_at_all(at_most(all, (K + 1) as nat), visited) {
            (IdLookupView { visited, best: tables.best, cur: None, ..self }, tables.shared)
        } else {
            let next = fill(all, visited, K as nat);
            (
                IdLookupView {
                    visited,
                    best: tables.best,
                    ids: next.0,
                    dests: next.1,
                    cur: Self::fresh(next.1),
                    ..self
                },
                tables.shared,
            )
        }
    }
}

impl IdLookup {
    /// The invariant of a lookup: its best peers are a table in order around
    /// the target, and the request of the round went to the chosen
    /// destinations.
    pub closed spec fn wf(&self) -> bool {
        &&& self.best.wf()
        &&& self.best@.owner == self.target
        &&& self.best@.k == K
        &&& self.map.wf()
        &&& self.cur matches Some(h) ==> h.wf() && h@.all == self.map.order()
    }

    /// initializes and starts an id lookup on `lookup_id`: the first round asks
    /// the `2 * K` peers nearest to `lookup_id` that `ktable` knows. Where it
    /// knows none, the lookup is done at once.
    pub fn new(lookup_id: Id, myself: Entry, ktable: &Ktable) -> (l: IdLookup)
        requires
            ktable.wf(),
        ensures
            l.wf(),
            l@.target == lookup_id,
            l@.myself == myself,
            l@.visited == Set::<Addr>::empty(),
            l@.best == KtableView::empty(K as nat, lookup_id),
            (l@.ids, l@.dests) == fill(
                ktable@.closest_to((2 * K) as nat, lookup_id),
                Set::<Addr>::empty(),
                (2 * K) as nat,
            ),
            l@.cur == IdLookupView::fresh(l@.dests),
    {
        let initial = ktable.closest_to(2 * K as u32, lookup_id);
        let visited = AddrSet::new();
        let map = fill_map(&initial, &visited, 2 * K);
        let dests = map.keys();
        let cur = if dests.len() == 0 {
            None
        } else {
            Some(SendHandle::new(dests))
        };
        let best = Ktable::new(K as u32, lookup_id);
        IdLookup { target: lookup_id, myself, visited, best, cur, map }
    }

    /// The request that the lookup sends to every destination.
    pub fn message(&self) -> (m: KadMsg)
        ensures
            m@ == KadMsgView::Lookup(self@.target, self@.myself),
    {
        KadMsg::Lookup(self.target, self.myself)
    }

    /// The destinations of the round that is under way; none when the lookup is
    /// done.
    pub fn destinations(&self) -> (dests: Vec<Addr>)
        requires
            self.wf(),
        ensures
            dests@ == if self@.cur is Some {
                self@.dests
            } else {
                Seq::<Addr>::empty()
            },
    {
        if self.cur.is_some() {
            self.map.keys()
        } else {
            Vec::new()
        }
    }

    /// is the lookup done?
    pub fn is_done(&self) -> (r: bool)
        ensures
            r == (self@.cur is None),
    {
        self.cur.is_none()
    }

    /// Takes the report of one ticket of the round: the answer of `source`, or
    /// `None` where `source` is dead or its answer could not be read. A report
    /// that nothing waits for is ignored.
    pub fn process_response(&mut self, source: Addr, answer: Option<KadMsg>)
        requires
            old(self).wf(),
        ensures
            final(self).wf(),
            final(self)@ == match old(self)@.cur {
                Some(h) => if h.is_done() {
                    old(self)@
                } else {
                    IdLookupView { cur: Some(h.process_response(source, answer)), ..old(self)@ }
                },
                None => old(self)@,
            },
    {
        match &mut self.cur {
            Some(h) => {
                if !h.is_done() {
                    h.process_response(source, answer);
                }
            },
            None => {},
        }
    }

    /// is every entry in `best` inside `visited`?
    fn has_looked_at_all(&self, best: &Vec<Entry>, upto: usize) -> (r: bool)
        requires
            upto <= best@.len(),
        ensures
            r == looked_at_all(best@.take(upto as int), self.visited@),
    {
        let mut i: usize = 0;
        while i < upto
            invariant
                i <= upto <= best@.len(),
                forall|j: int| 0 <= j < i ==> self.visited@.contains((#[trigger] best@[j]).sock),
            decreases upto - i,
        {
            if !self.visited.contains(&best[i].get_addr()) {
                assert(best@.take(upto as int)[i as int] == best@[i as int]);
                return false;
            }
            i += 1;
        }
        assert forall|j: int| 0 <= j < best@.take(upto as int).len() implies self.visited@.contains(
            (#[trigger] best@.take(upto as int)[j]).sock,
        ) by {
            assert(best@.take(upto as int)[j] == best@[j]);
        }
        true
    }

    /// call this over and over until it is done. Where the round under way has
    /// ended, it is taken in (see `IdLookupView::round`) and the result lists
    /// the destinations of the next round, to which `message` has to be sent;
    /// otherwise nothing happens and the result is empty.
    pub fn update(&mut self, ktable: &mut Ktable) -> (dests: Vec<Addr>)
        requires
            old(self).wf(),
            old(ktable).wf(),
        ensures
            final(self).wf(),
            final(ktable).wf(),
            old(self)@.round_over() ==> (final(self)@, final(ktable)@) == old(self)@.round(
                old(ktable)@,
            ),
            !old(self)@.round_over() ==> final(self)@ == old(self)@ && final(ktable)@ == old(
                ktable,
            )@,
            dests@ == if old(self)@.round_over() && final(self)@.cur is Some {
                final(self)@.dests
            } else {
                Seq::<Addr>::empty()
            },
    {
        let done = match &self.cur {
            Some(h) => h.is_done(),
            None => false,
        };
        if !done {
            return Vec::new();
        }
        let cur = self.cur.take().unwrap();
        let ghost h = cur@;
        let ghost start = Tables { shared: ktable@, best: self.best@ };
        let ghost visited0 = self.visited@;
        proof {
            self.map.lemma_order();
        }
        // say that we have visited all destinations
        let all = cur.iter();
        let mut i: usize = 0;
        proof {
            assert(visited0.union(all@.take(0).to_set()) =~= visited0);
        }
        while i < all.len()
            invariant
                i <= all@.len(),
                self.visited@ == visited0.union(all@.take(i as int).to_set()),
                self.map == old(self).map,
                self.best == old(self).best,
                self.target == old(self).target,
                self.myself == old(self).myself,
            decreases all@.len() - i,
        {
            self.visited.insert(all[i]);
            proof {
                assert(all@.take(i + 1) =~= all@.take(i as int).push(all@[i as int]));
                crate::network::addrmap::lemma_push_to_set(all@.take(i as int), all@[i as int]);
                assert(visited0.union(all@.take(i + 1).to_set()) =~= visited0.union(
                    all@.take(i as int).to_set(),
                ).insert(all@[i as int]));
            }
            i += 1;
        }
        proof {
            assert(all@.take(i as int) =~= all@);
        }
        let ghost visited = self.visited@;
        // process all responses
        let mut c: usize = 0;
        while c < all.len()
            invariant
                c <= all@.len(),
                cur.wf(),
                cur@ == h,
                h.is_done(),
                all@ == h.all,
                all@ == self.map.order(),
                self.map.wf(),
                self.map == old(self).map,
                self.visited@ == visited,
                self.target == old(self).target,
                self.myself == old(self).myself,
                ktable.wf(),
                self.best.wf(),
                self.best@.owner == self.target,
                self.best@.k == K,
                (Tables { shared: ktable@, best: self.best@ }) == settle(
                    start,
                    visited,
                    self.map@,
                    h.responses,
                    all@.take(c as int),
                ),
            decreases all@.len() - c,
        {
            let adr = all[c];
            proof {
                assert(all@.take(c + 1).drop_last() =~= all@.take(c as int));
                assert(all@.take(c + 1).last() == adr);
                self.map.lemma_order();
                assert(self.map.order().contains(adr));
            }
            if cur.is_dead(&adr) {
                // remove dead
                let before = *self.map.get(&adr).unwrap();
                ktable.delete_id(before);
                self.best.delete_id(before);
            } else {
                // is alive, add it
                match cur.borrow_answer(&adr) {
                    KadMsg::Answer(ans) => {
                        let ghost tables = Tables { shared: ktable@, best: self.best@ };
                        let mut a: usize = 0;
                        proof {
                            assert(ans@.take(0) =~= Seq::<Entry>::empty());
                        }
                        while a < ans.len()
                            invariant
                                a <= ans@.len(),
                                self.visited@ == visited,
                                self.map == old(self).map,
                                self.target == old(self).target,
                                self.myself == old(self).myself,
                                ktable.wf(),
                                self.best.wf(),
                                self.best@.owner == self.target,
                                self.best@.k == K,
                                (Tables { shared: ktable@, best: self.best@ }) == absorb(
                                    tables,
                                    visited,
                                    ans@.take(a as int),
                                ),
                            decreases ans@.len() - a,
                        {
                            proof {
                                assert(ans@.take(a + 1).drop_last() =~= ans@.take(a as int));
                                assert(ans@.take(a + 1).last() == ans@[a as int]);
                            }
                            let e = ans[a];
                            if !self.visited.contains(&e.get_addr()) {
                                ktable.offer(e);
                                self.best.offer(e);
                            }
                            a += 1;
                        }
                        proof {
                            assert(ans@.take(a as int) =~= ans@);
                        }
                    },
                    _ => {},
                }
            }
            c += 1;
        }
        proof {
            assert(all@.take(c as int) =~= all@);
        }
        // start a new round
        let best_all = self.best.get(u32::MAX);
        let upto = if best_all.len() < K + 1 {
            best_all.len()
        } else {
            K + 1
        };
        proof {
            assert(best_all@.take(upto as int) =~= at_most(best_all@, (K + 1) as nat));
        }
        if self.has_looked_at_all(&best_all, upto) {
            self.cur = None;
            Vec::new()
        } else {
            self.map = fill_map(&best_all, &self.visited, K);
            let dests = self.map.keys();
            if dests.len() == 0 {
                // cannot happen while one of the best peers is unvisited
                self.cur = None;
                Vec::new()
            } else {
                let ghost d = dests@;
                self.cur = Some(SendHandle::new(dests));
                self.map.keys()
            }
        }
    }

    /// turns this lookup into the actual answer: the `K` best peers found,
    /// which are the `K` peers nearest to the target among all that the lookup
    /// has kept, nearest first.
    pub fn into_answer(self) -> (answer: Vec<Entry>)
        requires
            self.wf(),
        ensures
            answer@ == self@.best.get(K as nat),
            answer@.len() <= K,
            sorted_from(self@.target, answer@),
    {
        proof {
            crate::node::ktable_laws::lemma_get_sorted(self.best@, K as nat);
        }
        self.best.get(K as u32)
    }
}

/// The destinations that `fill` chooses have not been visited, and none is
/// chosen twice.
pub proof fn lemma_fill_unvisited(s: Seq<Entry>, visited: Set<Addr>, limit: nat)
    ensures
        fill(s, visited, limit).1.no_duplicates(),
        forall|a: Addr|
            fill(s, visited, limit).0.contains_key(a) <==> fill(s, visited, limit).1.contains(a),
        forall|i: int|
            0 <= i < fill(s, visited, limit).1.len() ==> !visited.contains(
                #[trigger] fill(s, visited, limit).1[i],
            ),
    decreases s.len(),
{
    if s.len() > 0 {
        lemma_fill_unvisited(s.drop_last(), visited, limit);
        let before = fill(s.drop_last(), visited, limit);
        let after = fill(s, visited, limit);
        let b = s.last();
        if !(before.1.len() >= limit || visited.contains(b.sock)) {
            if !before.0.contains_key(b.sock) {
                let n = before.1.len() as int;
                assert(after.1[n] == b.sock);
                assert(forall|i: int| 0 <= i < n ==> after.1[i] == before.1[i]);
                assert forall|a: Addr| after.0.contains_key(a) <==> after.1.contains(a) by {
                    if before.1.contains(a) {
                        let i = before.1.index_of(a);
                        assert(after.1[i] == a);
                    }
                    if after.1.contains(a) {
                        let i = after.1.index_of(a);
                        if i < n {
                            assert(before.1[i] == a);
                        }
                    }
                }
                assert forall|i: int, j: int|
                    0 <= i < after.1.len() && 0 <= j < after.1.len() && i != j implies after.1[i]
                    != after.1[j] by {
                    if i < n && j < n {
                        assert(before.1[i] != before.1[j]);
                    } else if i < n {
                        assert(before.1.contains(before.1[i]));
                    } else if j < n {
                        assert(before.1.contains(before.1[j]));
                    }
                }
            } else {
                assert forall|a: Addr| after.0.contains_key(a) <==> after.1.contains(a) by {
                    if a == b.sock {
                        assert(before.0.contains_key(a));
                    }
                }
            }
        }
    }
}

/// No address is asked twice in a lookup. After a round was taken in, every
/// address that had been visited, and every address that was asked in the
/// round, counts as visited; and the round that begins asks only addresses
/// that have not been visited, each once.
pub proof fn lemma_round_asks_new(l: IdLookupView, t: KtableView)
    requires
        l.round_over(),
    ensures
        ({
            let next = l.round(t).0;
            &&& forall|a: Addr| l.visited.contains(a) ==> next.visited.contains(a)
            &&& forall|i: int|
                0 <= i < l.cur->Some_0.all.len() ==> next.visited.contains(
                    #[trigger] l.cur->Some_0.all[i],
                )
            &&& next.cur is Some ==> next.dests.no_duplicates() && next.cur->Some_0.all
                == next.dests && forall|i: int|
                0 <= i < next.dests.len() ==> !next.visited.contains(#[trigger] next.dests[i])
        }),
{
    let h = l.cur->Some_0;
    let visited = l.visited.union(h.all.to_set());
    let tables = settle(Tables { shared: t, best: l.best }, visited, l.ids, h.responses, h.all);
    let all = tables.best.get(u32::MAX as nat);
    lemma_fill_unvisited(all, visited, K as nat);
    assert forall|i: int| 0 <= i < h.all.len() implies visited.contains(#[trigger] h.all[i]) by {
        assert(h.all.contains(h.all[i]));
    }
}

/// creates the routing table of the peer `my_id`, with buckets of `K` peers
pub fn create_ktable(my_id: Id) -> (t: Ktable)
    ensures
        t.wf(),
        t@ == KtableView::empty(K as nat, my_id),
        t@.entries().len() == 0,
{
    Ktable::new(K as u32, my_id)
}

/// What the search for a bootstrap peer wants done next.
#[derive(Debug)]
pub enum BootStep {
    /// Send `query` to `tracker` and report the answer with `on_lookup`.
    Ask { tracker: Addr, query: TrackQuery },
    /// Ping the peer at this address and report the answer with `on_ping`.
    Ping(Addr),
    /// The search is over: a live peer and its identifier; or none, because no
    /// tracker knows a live peer of the room; or `Timeout`, because no tracker
    /// answered; or the error that stopped the search.
    Done(Result<Option<(Addr, Id)>, NetworkError>),
}

/// The search for a peer through which to join a room: the trackers are asked
/// one after another for the addresses that they know, and each address is
/// pinged, until a peer answers.
pub struct Bootstrap {
    room: Id,
    trackers: Vec<Addr>,
    index: usize,
    session: LookupSession,
    candidate: Option<Addr>,
    timedout: usize,
    over: bool,
}

/// What a search for a bootstrap peer holds.
pub struct BootstrapView {
    /// The room to join.
    pub room: Id,
    /// The trackers to ask.
    pub trackers: Seq<Addr>,
    /// The number of trackers that have been dealt with.
    pub index: nat,
    /// The walk through the addresses of the tracker that is being asked.
    pub session: LookupSession,
    /// The address that is being pinged.
    pub candidate: Option<Addr>,
    /// The number of trackers that did not answer.
    pub timedout: nat,
    /// Whether the search is over.
    pub over: bool,
}

impl View for Bootstrap {
    type V = BootstrapView;

    closed spec fn view(&self) -> BootstrapView {
        BootstrapView {
            room: self.room,
            trackers: self.trackers@,
            index: self.index as nat,
            session: self.session,
            candidate: self.candidate,
            timedout: self.timedout as nat,
            over: self.over,
        }
    }
}

impl BootstrapView {
    /// The search has not gone past the last tracker, and no more trackers
    /// were silent than were asked.
    pub open spec fn wf(self) -> bool {
        self.timedout <= self.index <= self.trackers.len()
    }

    /// Whether the search waits for the answer of a tracker.
    pub open spec fn asking(self) -> bool {
        !self.over && self.candidate is None && self.index < self.trackers.len()
    }

    /// The search for a peer of `room` through `trackers` as it begins, and
    /// what it wants done first: the first tracker is asked, if there is one.
    pub open spec fn begin(room: Id, trackers: Seq<Addr>) -> (BootstrapView, BootStep) {
        (BootstrapView {
            room,
            trackers,
            index: 0,
            session: LookupSession {
                adr: Addr::V4 { ip: 0, port: 0 },
                id: room,
                last_lookup: 0,
                empty: false,
            },
            candidate: None,
            timedout: 0,
            over: false,
        }).turn_to(0)
    }

    /// The search as it turns to the tracker number `i`, and what it wants
    /// done. Behind the last tracker the search is over: without result, or
    /// with `Timeout` where every tracker was silent.
    pub open spec fn turn_to(self, i: nat) -> (BootstrapView, BootStep) {
        if i >= self.trackers.len() {
            (
                BootstrapView { index: self.trackers.len(), candidate: None, over: true, ..self },
                BootStep::Done(
                    if self.timedout == self.trackers.len() {
                        Err(NetworkError::Timeout)
                    } else {
                        Ok(None)
                    },
                ),
            )
        } else {
            (
                BootstrapView {
                    index: i,
                    session: LookupSession {
                        adr: self.trackers[i as int],
                        id: self.room,
                        last_lookup: 0,
                        empty: false,
                    },
                    candidate: None,
                    ..self
                },
                BootStep::Ask {
                    tracker: self.trackers[i as int],
                    query: TrackQuery::Lookup { id: self.room, last_lookup: 0 },
                },
            )
        }
    }

    /// The search after the tracker's answer `resp`, and what it wants done.
    ///
    /// An address is pinged. A tracker that has no further address, or that is
    /// silent, is left for the next one; a silent one is counted. Any other
    /// error ends the search. An answer that nothing waits for ends the search
    /// with `NoMessage`.
    pub open spec fn on_lookup(self, resp: Result<(Option<Addr>, u32), NetworkError>) -> (
        BootstrapView,
        BootStep,
    ) {
        if !self.asking() {
            (BootstrapView { over: true, ..self }, BootStep::Done(Err(NetworkError::NoMessage)))
        } else {
            let next = self.session.spec_next(resp);
            match next.1 {
                Some(Ok(adr)) => (
                    BootstrapView { session: next.0, candidate: Some(adr), ..self },
                    BootStep::Ping(adr),
                ),
                Some(Err(NetworkError::Timeout)) => (BootstrapView {
                    session: next.0,
                    timedout: self.timedout + 1,
                    ..self
                }).turn_to(self.index + 1),
                Some(Err(e)) => (
                    BootstrapView { session: next.0, over: true, ..self },
                    BootStep::Done(Err(e)),
                ),
                None => (BootstrapView { session: next.0, ..self }).turn_to(self.index + 1),
            }
        }
    }

    /// The search after the answer `answer` to a ping, and what it wants done.
    ///
    /// A pong ends the search with the peer that sent it. Anything else, or
    /// nothing, sends the search back to the tracker for its next address. An
    /// answer that nothing waits for ends the search with `NoMessage`.
    pub open spec fn on_ping(self, answer: Option<KadMsg>) -> (BootstrapView, BootStep) {
        if self.over || self.candidate is None || self.index >= self.trackers.len() {
            (BootstrapView { over: true, ..self }, BootStep::Done(Err(NetworkError::NoMessage)))
        } else {
            match answer {
                Some(KadMsg::Pong(id)) => (
                    BootstrapView { over: true, ..self },
                    BootStep::Done(Ok(Some((self.candidate->Some_0, id)))),
                ),
                _ => (
                    BootstrapView { candidate: None, ..self },
                    BootStep::Ask {
                        tracker: self.trackers[self.index as int],
                        query: TrackQuery::Lookup {
                            id: self.room,
                            last_lookup: self.session.last_lookup,
                        },
                    },
                ),
            }
        }
    }
}

impl Bootstrap {
    /// Turns to the tracker number `i`: see `BootstrapView::turn_to`.
    fn turn_to(&mut self, i: usize) -> (step: BootStep)
        requires
            old(self)@.timedout <= old(self)@.trackers.len(),
            old(self)@.timedout <= i,
        ensures
            (final(self)@, step) == old(self)@.turn_to(i as nat),
            final(self)@.wf(),
    {
        self.candidate = None;
        if i >= self.trackers.len() {
            self.index = self.trackers.len();
            self.over = true;
            if self.timedout == self.trackers.len() {
                BootStep::Done(Err(NetworkError::Timeout))
            } else {
                BootStep::Done(Ok(None))
            }
        } else {
            self.index = i;
            self.session = LookupSession::new(self.trackers[i], self.room);
            BootStep::Ask {
                tracker: self.trackers[i],
                query: TrackQuery::Lookup { id: self.room, last_lookup: 0 },
            }
        }
    }

    /// Reports the answer of the tracker that was asked: the address and
    /// cursor of its `LookupAns`, or the error of the exchange. See
    /// `BootstrapView::on_lookup`.
    pub fn on_lookup(&mut self, resp: Result<(Option<Addr>, u32), NetworkError>) -> (step:
        BootStep)
        requires
            old(self)@.wf(),
        ensures
            final(self)@.wf(),
            (final(self)@, step) == old(self)@.on_lookup(resp),
    {
        if self.over || self.candidate.is_some() || self.index >= self.trackers.len() {
            self.over = true;
            return BootStep::Done(Err(NetworkError::NoMessage));
        }
        match self.session.next(resp) {
            Some(Ok(adr)) => {
                self.candidate = Some(adr);
                BootStep::Ping(adr)
            },
            Some(Err(NetworkError::Timeout)) => {
                self.timedout = self.timedout + 1;
                let next = self.index + 1;
                self.turn_to(next)
            },
            Some(Err(e)) => {
                self.over = true;
                BootStep::Done(Err(e))
            },
            None => {
                let next = self.index + 1;
                self.turn_to(next)
            },
        }
    }

    /// Reports the answer to the ping of the candidate; `None` where the
    /// candidate was silent. See `BootstrapView::on_ping`.
    pub fn on_ping(&mut self, answer: Option<KadMsg>) -> (step: BootStep)
        requires
            old(self)@.wf(),
        ensures
            final(self)@.wf(),
            (final(self)@, step) == old(self)@.on_ping(answer),
    {
        if self.over || self.index >= self.trackers.len() {
            self.over = true;
            return BootStep::Done(Err(NetworkError::NoMessage));
        }
        match self.candidate {
            None => {
                self.over = true;
                BootStep::Done(Err(NetworkError::NoMessage))
            },
            Some(adr) => {
                match is_alive(answer) {
                    Some(id) => {
                        self.over = true;
                        BootStep::Done(Ok(Some((adr, id))))
                    },
                    None => {
                        self.candidate = None;
                        BootStep::Ask {
                            tracker: self.trackers[self.index],
                            query: TrackQuery::Lookup {
                                id: self.room,
                                last_lookup: self.session.last_lookup,
                            },
                        }
                    },
                }
            },
        }
    }
}

/// The search after the answers `answers` of the trackers, each given to the
/// search when it asks a tracker, and what the search wants done then. An
/// answer that comes when the search does not ask a tracker is left aside.
pub open spec fn asked(
    s: BootstrapView,
    step: BootStep,
    answers: Seq<Result<(Option<Addr>, u32), NetworkError>>,
) -> (BootstrapView, BootStep)
    decreases answers.len(),
{
    if answers.len() == 0 {
        (s, step)
    } else {
        let before = asked(s, step, answers.drop_last());
        if before.1 is Ask {
            before.0.on_lookup(answers.last())
        } else {
            before
        }
    }
}

/// Whether a tracker's answer is silence, or says that it knows no peer of the
/// room.
pub open spec fn no_peer(answer: Result<(Option<Addr>, u32), NetworkError>) -> bool {
    answer == Err::<(Option<Addr>, u32), NetworkError>(NetworkError::Timeout) || (answer is Ok
        && answer->Ok_0.0 is None)
}

/// The number of silent trackers among `answers`.
pub open spec fn silent(answers: Seq<Result<(Option<Addr>, u32), NetworkError>>) -> nat
    decreases answers.len(),
{
    if answers.len() == 0 {
        0
    } else {
        silent(answers.drop_last()) + if answers.last() is Err {
            1nat
        } else {
            0nat
        }
    }
}

/// A room that no tracker knows. When every tracker is silent or knows no
/// peer of the room, the search asks the trackers one after another, each
/// once and from the start, and pings nobody. It ends without a peer where a
/// tracker has answered, and with `Timeout` where all were silent.
pub proof fn lemma_unknown_room(
    room: Id,
    trackers: Seq<Addr>,
    answers: Seq<Result<(Option<Addr>, u32), NetworkError>>,
)
    requires
        answers.len() <= trackers.len(),
        forall|i: int| 0 <= i < answers.len() ==> no_peer(#[trigger] answers[i]),
    ensures
        ({
            let start = BootstrapView::begin(room, trackers);
            let end = asked(start.0, start.1, answers);
            &&& silent(answers) <= answers.len()
            &&& answers.len() < trackers.len() ==> end.1 == (BootStep::Ask {
                tracker: trackers[answers.len() as int],
                query: TrackQuery::Lookup { id: room, last_lookup: 0 },
            }) && end.0 == (BootstrapView {
                room,
                trackers,
                index: answers.len(),
                session: LookupSession {
                    adr: trackers[answers.len() as int],
                    id: room,
                    last_lookup: 0,
                    empty: false,
                },
                candidate: None,
                timedout: silent(answers),
                over: false,
            })
            &&& answers.len() == trackers.len() ==> end.0.over && end.1 == BootStep::Done(
                if silent(answers) == trackers.len() {
                    Err(NetworkError::Timeout)
                } else {
                    Ok(None)
                },
            )
        }),
    decreases answers.len(),
{
    if answers.len() > 0 {
        let head = answers.drop_last();
        assert(forall|i: int| 0 <= i < head.len() ==> head[i] == answers[i]);
        lemma_unknown_room(room, trackers, head);
        assert(no_peer(answers[answers.len() - 1]));
    }
}

/// queries all trackers and returns the first bootstrap node that is alive.
/// This begins the search: the result is its state and what it wants done
/// first. The search ends with `Timeout` where no tracker responded.
pub fn find_bootstrapper(room_id: Id, trackers: Vec<Addr>) -> (r: (Bootstrap, BootStep))
    ensures
        r.0@.wf(),
        (r.0@, r.1) == BootstrapView::begin(room_id, trackers@),
{
    let mut b = Bootstrap {
        room: room_id,
        trackers,
        index: 0,
        session: LookupSession::new(Addr::V4 { ip: 0, port: 0 }, room_id),
        candidate: None,
        timedout: 0,
        over: false,
    };
    let step = b.turn_to(0);
    (b, step)
}

} // verus!
