//! What holds of the broadcast engine in every state.

use vstd::prelude::*;
use crate::common::id::Id;
use crate::network::addrmap::lemma_peers_remove;
use crate::network::addrmap::Peers;
use crate::network::udpmanager::SendHandleView;
use crate::network::Addr;
use crate::node::broadcast::adopt;
use crate::node::broadcast::drop_dead;
use crate::node::broadcast::finish;
use crate::node::broadcast::ActiveView;
use crate::node::broadcast::BroadcastView;
use crate::node::broadcast::EffectView;
use crate::node::broadcast::MsgPayloadView;
use crate::node::broadcast::MsgView;
use crate::node::broadcast::MAX_CONNECTIONS;
use crate::node::broadcast::TING_WAIT;
use crate::node::cache::CacheView;
use crate::node::ktable::Entry;
use crate::node::ktable::KtableView;
use crate::node::ktable_laws::lemma_get_known;
use crate::node::ktable_laws::lemma_delete_id_wf;
use crate::node::ktable_laws::lemma_delete_keeps_unknown;

verus! {

/// A broadcast whose hash is remembered is dropped: nothing is sent, nothing is
/// shown, and neither the engine nor the routing table changes.
pub proof fn lemma_cached_is_dropped(
    s: BroadcastView,
    t: KtableView,
    msg: MsgView,
    sender: Addr,
    now: u64,
    reply_hash: u64,
)
    requires
        s.cache.contains(msg.hash),
    ensures
        s.receive(t, msg, sender, now, reply_hash) == (s, t, Seq::<EffectView>::empty()),
{
}

/// A hash that has just become the newest of a cache of two or more is still
/// remembered after one more hash was offered.
pub proof fn lemma_newest_survives(c: CacheView, x: u64, y: u64)
    requires
        c.wf(),
        c.capacity >= 2,
        !c.contains(x),
    ensures
        c.insert(x).wf(),
        c.insert(x).contains(x),
        c.insert(x).insert(y).wf(),
        c.insert(x).insert(y).contains(x),
{
    crate::node::cache::lemma_insert_twice(c, x);
    let c1 = c.insert(x);
    crate::node::cache::lemma_insert_twice(c1, y);
    let q = c1.queue;
    assert(q[q.len() - 1] == x);
    if !c1.contains(y) {
        let c2 = c1.insert(y);
        if q.len() >= c1.capacity {
            assert(c2.queue[q.len() - 2] == x);
        } else {
            assert(c2.queue[q.len() - 1] == x);
        }
    }
}

/// What `emit` does to the cache: it is left alone, or the hash of the
/// message is offered to it. Nothing else of the engine but the list of
/// waiting broadcasts and the next tag changes.
pub proof fn lemma_emit_frame(s: BroadcastView, msg: MsgView, ban: Option<Addr>)
    ensures
        s.emit(msg, ban).0.cache == s.cache || s.emit(msg, ban).0.cache == s.cache.insert(msg.hash),
        s.emit(msg, ban).0.connected == s.connected,
        s.emit(msg, ban).0.ting_cur == s.ting_cur,
        s.emit(msg, ban).0.ting_timer == s.ting_timer,
        s.emit(msg, ban).0.my_id == s.my_id,
{
}

/// A broadcast is taken once. After a broadcast was taken by an engine that
/// remembers two hashes or more, any broadcast with the same hash is dropped.
pub proof fn lemma_duplicate_suppressed(
    s: BroadcastView,
    t: KtableView,
    msg: MsgView,
    sender: Addr,
    now: u64,
    reply_hash: u64,
    again: MsgView,
    sender2: Addr,
    now2: u64,
    reply_hash2: u64,
)
    requires
        s.wf(),
        s.cache.capacity >= 2,
        again.hash == msg.hash,
    ensures
        s.receive(t, msg, sender, now, reply_hash).0.cache.contains(msg.hash),
        s.receive(t, msg, sender, now, reply_hash).0.receive(
            s.receive(t, msg, sender, now, reply_hash).1,
            again,
            sender2,
            now2,
            reply_hash2,
        ) == (
            s.receive(t, msg, sender, now, reply_hash).0,
            s.receive(t, msg, sender, now, reply_hash).1,
            Seq::<EffectView>::empty(),
        ),
{
    if !s.cache.contains(msg.hash) {
        let fresh = BroadcastView { cache: s.cache.insert(msg.hash), ..s };
        lemma_newest_survives(s.cache, msg.hash, reply_hash);
        lemma_newest_survives(s.cache, msg.hash, msg.hash);
        match msg.payload {
            MsgPayloadView::Ting => {
                lemma_emit_frame(
                    fresh,
                    MsgView {
                        hash: reply_hash,
                        sender_id: s.my_id,
                        payload: MsgPayloadView::IsAlive(s.my_id),
                    },
                    None,
                );
            },
            MsgPayloadView::Msg(m) => {
                let friends = fresh.befriend(t, sender, msg.sender_id);
                lemma_emit_frame(friends.0, MsgView { sender_id: s.my_id, ..msg }, Some(sender));
            },
            MsgPayloadView::IsAlive(id) => {
                let friends = fresh.heard(id, now).befriend(t, sender, msg.sender_id);
                lemma_emit_frame(friends.0, MsgView { sender_id: s.my_id, ..msg }, Some(sender));
            },
        }
    }
}

/// Whether the neighbours `d` and the routing table `u` came from `c` and `t`
/// by dropping neighbours together with their peers: no neighbour is new or
/// has another identifier, no peer is newly known to the table, and whoever
/// stopped being a neighbour has left the table.
pub open spec fn dropped_from(c: Peers<Id>, t: KtableView, d: Peers<Id>, u: KtableView) -> bool {
    &&& d.wf()
    &&& u.wf()
    &&& forall|a: Addr| #[trigger] d.contains(a) ==> c.contains(a) && d.map[a] == c.map[a]
    &&& forall|id: Id| !t.knows(id) ==> !#[trigger] u.knows(id)
    &&& forall|a: Addr| c.contains(a) && !#[trigger] d.contains(a) ==> !u.knows(c.map[a])
}

/// Going through the destinations of a broadcast only drops neighbours
/// together with their peers, and drops every dead destination.
pub proof fn lemma_drop_dead(c: Peers<Id>, t: KtableView, h: SendHandleView<()>, dests: Seq<Addr>)
    requires
        c.wf(),
        t.wf(),
    ensures
        dropped_from(c, t, drop_dead(c, t, h, dests).0, drop_dead(c, t, h, dests).1),
        forall|j: int|
            0 <= j < dests.len() && h.is_dead(#[trigger] dests[j]) ==> !drop_dead(
                c,
                t,
                h,
                dests,
            ).0.contains(dests[j]),
    decreases dests.len(),
{
    if dests.len() > 0 {
        let head = dests.drop_last();
        let a = dests.last();
        lemma_drop_dead(c, t, h, head);
        let before = drop_dead(c, t, h, head);
        let after = drop_dead(c, t, h, dests);
        assert(forall|j: int| 0 <= j < head.len() ==> head[j] == dests[j]);
        if h.is_dead(a) && before.0.contains(a) {
            let id = before.0.map[a];
            lemma_peers_remove(before.0, a);
            lemma_delete_id_wf(before.1, id);
            assert(after.0 == before.0.remove(a));
            assert(after.1 == before.1.delete_id(id));
            assert forall|b: Addr| #[trigger] after.0.contains(b) implies c.contains(b)
                && after.0.map[b] == c.map[b] by {
                assert(before.0.remove(a).contains(b));
                assert(before.0.contains(b));
            }
            assert forall|x: Id| !t.knows(x) implies !#[trigger] after.1.knows(x) by {
                lemma_delete_keeps_unknown(before.1, id, x);
            }
            assert forall|b: Addr| c.contains(b) && !#[trigger] after.0.contains(b) implies !after.1.knows(
                c.map[b],
            ) by {
                if b == a {
                    assert(before.0.map[a] == c.map[a]);
                } else {
                    if before.0.contains(b) {
                        assert(before.0.remove(a).contains(b));
                    }
                    assert(!before.0.contains(b));
                    lemma_delete_keeps_unknown(before.1, id, c.map[b]);
                }
            }
        }
        assert forall|j: int| 0 <= j < dests.len() && h.is_dead(#[trigger] dests[j]) implies !after.0.contains(
            dests[j],
        ) by {
            if j < head.len() {
                assert(!before.0.contains(head[j]));
            }
        }
    }
}

/// The look at the waiting broadcasts only drops neighbours together with
/// their peers, and drops every dead destination of every broadcast that is
/// over.
pub proof fn lemma_finish(c: Peers<Id>, t: KtableView, active: Seq<ActiveView>)
    requires
        c.wf(),
        t.wf(),
    ensures
        dropped_from(c, t, finish(c, t, active).connected, finish(c, t, active).table),
        forall|i: int, j: int|
            #![trigger active[i].sendh.all[j]]
            0 <= i < active.len() && active[i].sendh.is_done() && 0 <= j
                < active[i].sendh.all.len() && active[i].sendh.is_dead(active[i].sendh.all[j])
                ==> !finish(c, t, active).connected.contains(active[i].sendh.all[j]),
    decreases active.len(),
{
    if active.len() > 0 {
        let rest = active.drop_first();
        let a = active.first();
        lemma_finish(c, t, rest);
        let later = finish(c, t, rest);
        let f = finish(c, t, active);
        assert(forall|i: int| 0 <= i < rest.len() ==> rest[i] == active[i + 1]);
        if a.sendh.is_done() {
            lemma_drop_dead(later.connected, later.table, a.sendh, a.sendh.all);
            assert forall|b: Addr| c.contains(b) && !#[trigger] f.connected.contains(b) implies !f.table.knows(
                c.map[b],
            ) by {
                if later.connected.contains(b) {
                    assert(later.connected.map[b] == c.map[b]);
                } else {
                    assert(!later.table.knows(c.map[b]));
                }
            }
        }
        assert forall|i: int, j: int|
            #![trigger active[i].sendh.all[j]]
            0 <= i < active.len() && active[i].sendh.is_done() && 0 <= j
                < active[i].sendh.all.len() && active[i].sendh.is_dead(
                active[i].sendh.all[j],
            ) implies !f.connected.contains(active[i].sendh.all[j]) by {
            if i > 0 {
                assert(rest[i - 1] == active[i]);
                assert(!later.connected.contains(rest[i - 1].sendh.all[j]));
            }
        }
    }
}

/// Handing messages to the neighbours changes neither the neighbours nor the
/// probe.
pub proof fn lemma_emit_all_frame(s: BroadcastView, msgs: Seq<MsgView>)
    ensures
        s.emit_all(msgs).0.connected == s.connected,
        s.emit_all(msgs).0.ting_cur == s.ting_cur,
        s.emit_all(msgs).0.ting_timer == s.ting_timer,
    decreases msgs.len(),
{
    if msgs.len() > 0 {
        lemma_emit_all_frame(s, msgs.drop_last());
        lemma_emit_frame(s.emit_all(msgs.drop_last()).0, msgs.last(), None);
    }
}

/// A dead neighbour is dropped from the neighbours and from the routing table
/// in one step. When the waiting broadcasts are looked at, every destination
/// of a broadcast that is over which did not acknowledge is no neighbour
/// afterwards; and if it was one, the routing table does not know its peer
/// afterwards.
pub proof fn lemma_dead_neighbour_leaves(s: BroadcastView, t: KtableView, i: int, j: int)
    requires
        s.wf(),
        t.wf(),
        0 <= i < s.active.len(),
        s.active[i].sendh.is_done(),
        0 <= j < s.active[i].sendh.all.len(),
        s.active[i].sendh.is_dead(s.active[i].sendh.all[j]),
    ensures
        !s.advance(t).0.connected.contains(s.active[i].sendh.all[j]),
        s.connected.contains(s.active[i].sendh.all[j]) ==> !s.advance(t).1.knows(
            s.connected.map[s.active[i].sendh.all[j]],
        ),
        s.advance(t).1.wf(),
{
    let a = s.active[i].sendh.all[j];
    lemma_finish(s.connected, t, s.active);
    let f = finish(s.connected, t, s.active);
    lemma_emit_all_frame(BroadcastView { connected: f.connected, active: f.kept, ..s }, f.resend);
    assert(!f.connected.contains(a));
}

/// The look for neighbours takes nobody back without a peer: an address that
/// is a neighbour after the look and was none before is the address of a peer
/// that the routing table handed out.
pub proof fn lemma_adopt_sources(c: Peers<Id>, es: Seq<Entry>, a: Addr)
    requires
        adopt(c, es).contains(a),
        !c.contains(a),
    ensures
        exists|j: int| 0 <= j < es.len() && (#[trigger] es[j]).sock == a && adopt(c, es).map[a]
            == es[j].id,
    decreases es.len(),
{
    if es.len() > 0 {
        let head = es.drop_last();
        let before = adopt(c, head);
        assert(forall|j: int| 0 <= j < head.len() ==> head[j] == es[j]);
        if before.contains(a) {
            lemma_adopt_sources(c, head, a);
            let j = choose|j: int|
                0 <= j < head.len() && (#[trigger] head[j]).sock == a && before.map[a] == head[j].id;
            assert(es[j].sock == a);
        } else {
            assert(es[es.len() - 1].sock == a);
        }
    }
}

/// A dead neighbour does not come back by itself. After the waiting
/// broadcasts were looked at and neighbours were looked for, a destination
/// that did not acknowledge is a neighbour only where the routing table, which
/// no longer knows the peer that was dropped with it, handed out another peer
/// at that address.
pub proof fn lemma_dead_neighbour_stays_out(s: BroadcastView, t: KtableView, i: int, j: int)
    requires
        s.wf(),
        t.wf(),
        0 <= i < s.active.len(),
        s.active[i].sendh.is_done(),
        0 <= j < s.active[i].sendh.all.len(),
        s.active[i].sendh.is_dead(s.active[i].sendh.all[j]),
        s.connected.contains(s.active[i].sendh.all[j]),
    ensures
        ({
            let a = s.active[i].sendh.all[j];
            let looked = s.advance(t);
            let after = looked.0.connect_closest(looked.1);
            after.connected.contains(a) ==> after.connected.map[a] != s.connected.map[a]
                && looked.1.knows(after.connected.map[a])
        }),
{
    let a = s.active[i].sendh.all[j];
    let looked = s.advance(t);
    let after = looked.0.connect_closest(looked.1);
    lemma_dead_neighbour_leaves(s, t, i, j);
    if after.connected.contains(a) {
        let es = looked.1.get(MAX_CONNECTIONS as nat);
        lemma_adopt_sources(looked.0.connected, es, a);
        let x = choose|x: int|
            0 <= x < es.len() && (#[trigger] es[x]).sock == a && after.connected.map[a] == es[x].id;
        lemma_get_known(looked.1, MAX_CONNECTIONS as nat, x);
    }
}

/// A probe comes to its end. When the ticket of the probe has reported, a look
/// at the probe either ends it, because the peer did not acknowledge, or starts
/// the wait for the flood; and a look at the probe when `TING_WAIT` of that
/// wait has passed ends it, with the peer for a neighbour. At the end no probe
/// is under way and the time to the next one runs.
pub proof fn lemma_ting_converges(s: BroadcastView, t: KtableView, t1: u64, t2: u64)
    requires
        s.wf(),
        s.ting_cur is Some,
        !s.ting_cur->Some_0.sendh_done,
        s.ting_cur->Some_0.sendh.is_done(),
        s.ting_cur->Some_0.timer.duration == TING_WAIT,
        t2 - t1 >= TING_WAIT,
    ensures
        ({
            let first = s.drive_ting(t, t1);
            let second = first.0.drive_ting(first.1, t2);
            &&& second.0.ting_cur is None
            &&& second.0.ting_timer.enabled
            &&& first.0.ting_cur is Some ==> second.0.connected.contains(s.ting_cur->Some_0.dst.sock)
            &&& first.0.ting_cur is None ==> first.1 == t.delete_id(s.ting_cur->Some_0.dst.id)
        }),
{
    let ting = s.ting_cur->Some_0;
    let first = s.drive_ting(t, t1);
    if !ting.sendh.is_dead(ting.dst.sock) {
        let waiting = first.0.ting_cur->Some_0;
        assert(waiting.timer.start == t1 && waiting.timer.enabled);
        assert(waiting.timer.expired_at(t2, 100));
    }
}

/// The probed peer's `IsAlive` ends the probe. When a broadcast `IsAlive` of
/// the peer that is being probed is taken, no probe is under way afterwards
/// and the time to the next one runs.
pub proof fn lemma_ting_heard(
    s: BroadcastView,
    t: KtableView,
    msg: MsgView,
    sender: Addr,
    now: u64,
    reply_hash: u64,
)
    requires
        s.ting_cur is Some,
        msg.payload == MsgPayloadView::IsAlive(s.ting_cur->Some_0.dst.id),
        !s.cache.contains(msg.hash),
    ensures
        s.receive(t, msg, sender, now, reply_hash).0.ting_cur is None,
        s.receive(t, msg, sender, now, reply_hash).0.ting_timer.enabled,
{
    let fresh = BroadcastView { cache: s.cache.insert(msg.hash), ..s };
    let id = s.ting_cur->Some_0.dst.id;
    let friends = fresh.heard(id, now).befriend(t, sender, msg.sender_id);
    lemma_emit_frame(friends.0, MsgView { sender_id: s.my_id, ..msg }, Some(sender));
}

} // verus!
