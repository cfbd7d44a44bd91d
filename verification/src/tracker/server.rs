//! The tracker's book: which peers were seen in which room, and the answers
//! that the tracker gives from it.

use vstd::prelude::*;
use std::collections::HashMap;
use vstd::std_specs::hash::spec_keys_iter;
use vstd::std_specs::iter::IteratorSpec;
use crate::common::id::Id;
use crate::common::timer::elapsed;
use crate::network::Addr;
use crate::tracker::api::LookupSession;
use crate::tracker::TrackQuery;
use crate::tracker::TrackResp;

verus! {

/// data stored in the tracker
#[derive(Debug, Clone, Copy)]
pub struct Boot {
    /// address to a entry node
    pub adr: Addr,
    /// the time the entry was added or refreshed, in milliseconds
    pub ttl: u64,
    /// strictly increasing counter to act as an id for every boot
    pub counter: u32,
}

/// Two entries are the same entry node when they have the same address.
impl PartialEq for Boot {
    fn eq(&self, other: &Boot) -> (r: bool) {
        self.adr == other.adr
    }
}

impl vstd::std_specs::cmp::PartialEqSpecImpl for Boot {
    open spec fn obeys_eq_spec() -> bool {
        true
    }

    open spec fn eq_spec(&self, other: &Boot) -> bool {
        self.adr == other.adr
    }
}

/// maps room ids to several entry (bootstrap) nodes
pub struct Data {
    rooms: HashMap<u64, Vec<Boot>>,
}

impl View for Data {
    type V = Map<u64, Seq<Boot>>;

    closed spec fn view(&self) -> Map<u64, Seq<Boot>> {
        book_of(self.rooms@)
    }
}

/// The book that a map of rooms stands for: each room with the list of its
/// entry nodes, in the order in which they were added.
pub open spec fn book_of(rooms: Map<u64, Vec<Boot>>) -> Map<u64, Seq<Boot>> {
    Map::new(|k: u64| rooms.contains_key(k), |k: u64| rooms[k]@)
}

/// The index of the first entry node with the address `adr`.
pub open spec fn boot_index(boots: Seq<Boot>, adr: Addr) -> Option<int>
    decreases boots.len(),
{
    if boots.len() == 0 {
        None
    } else {
        match boot_index(boots.drop_last(), adr) {
            Some(i) => Some(i),
            None => if boots.last().adr == adr {
                Some(boots.len() - 1)
            } else {
                None
            },
        }
    }
}

/// The first entry node whose counter is above `counter`.
pub open spec fn next_boot(boots: Seq<Boot>, counter: u32) -> Option<Boot>
    decreases boots.len(),
{
    if boots.len() == 0 {
        None
    } else {
        match next_boot(boots.drop_last(), counter) {
            Some(b) => Some(b),
            None => if boots.last().counter > counter {
                Some(boots.last())
            } else {
                None
            },
        }
    }
}

/// The entry nodes that were seen no longer than `thres` before `now`.
pub open spec fn keep_fresh(boots: Seq<Boot>, thres: u64, now: u64) -> Seq<Boot>
    decreases boots.len(),
{
    if boots.len() == 0 {
        Seq::empty()
    } else if elapsed(boots.last().ttl, now) > thres {
        keep_fresh(boots.drop_last(), thres, now)
    } else {
        keep_fresh(boots.drop_last(), thres, now).push(boots.last())
    }
}

/// The book in which the rooms of `done` hold only their fresh entry nodes,
/// and are dropped where they hold none; the other rooms are as they were.
pub open spec fn prune_some(
    rooms: Map<u64, Seq<Boot>>,
    done: Set<u64>,
    thres: u64,
    now: u64,
) -> Map<u64, Seq<Boot>> {
    Map::new(
        |k: u64|
            rooms.contains_key(k) && (done.contains(k) ==> keep_fresh(rooms[k], thres, now).len()
                > 0),
        |k: u64|
            if done.contains(k) {
                keep_fresh(rooms[k], thres, now)
            } else {
                rooms[k]
            },
    )
}

/// The rooms with their fresh entry nodes; a room without any is dropped.
pub open spec fn prune(rooms: Map<u64, Seq<Boot>>, thres: u64, now: u64) -> Map<u64, Seq<Boot>> {
    prune_some(rooms, rooms.dom(), thres, now)
}

/// The number of entry nodes of the rooms `keys`.
pub open spec fn total_of(rooms: Map<u64, Seq<Boot>>, keys: Seq<u64>) -> nat
    decreases keys.len(),
{
    if keys.len() == 0 {
        0
    } else {
        total_of(rooms, keys.drop_last()) + rooms[keys.last()].len()
    }
}

/// The number of entry nodes of all rooms of a finite book.
pub open spec fn total(rooms: Map<u64, Seq<Boot>>) -> nat
    decreases rooms.dom().len(),
    when rooms.dom().finite()
{
    if rooms.dom().len() == 0 {
        0
    } else {
        let k = rooms.dom().choose();
        rooms[k].len() + total(rooms.remove(k))
    }
}

/// Whether `m` is the earliest time at which an entry node of a room of `among`
/// was seen; `None` where those rooms have no entry node.
pub open spec fn is_oldest_among(
    rooms: Map<u64, Seq<Boot>>,
    among: Set<u64>,
    oldest: Option<u64>,
) -> bool {
    match oldest {
        Some(m) => {
            &&& exists|k: u64, j: int|
                among.contains(k) && rooms.contains_key(k) && 0 <= j < rooms[k].len()
                    && #[trigger] rooms[k][j].ttl == m
            &&& forall|k: u64, j: int|
                among.contains(k) && rooms.contains_key(k) && 0 <= j < rooms[k].len() ==> m
                    <= #[trigger] rooms[k][j].ttl
        },
        None => forall|k: u64|
            among.contains(k) && rooms.contains_key(k) ==> (#[trigger] rooms[k]).len() == 0,
    }
}

/// Whether `oldest` is the earliest time at which an entry node of `rooms` was
/// seen; `None` where there is no entry node.
pub open spec fn is_oldest(rooms: Map<u64, Seq<Boot>>, oldest: Option<u64>) -> bool {
    is_oldest_among(rooms, rooms.dom(), oldest)
}

/// The book and the counter after the peer at `adr` was seen in the room `id`
/// at the time `now`. A peer that is new to the room gets the next counter; one
/// that is known is seen anew.
pub open spec fn update_spec(
    rooms: Map<u64, Seq<Boot>>,
    counter: u32,
    id: Id,
    adr: Addr,
    now: u64,
) -> (Map<u64, Seq<Boot>>, u32) {
    let fresh = Boot { adr, ttl: now, counter: (counter + 1) as u32 };
    if !rooms.contains_key(id@) {
        (rooms.insert(id@, seq![fresh]), (counter + 1) as u32)
    } else {
        let boots = rooms[id@];
        match boot_index(boots, adr) {
            Some(j) => (rooms.insert(id@, boots.update(j, Boot { ttl: now, ..boots[j] })), counter),
            None => (rooms.insert(id@, boots.push(fresh)), (counter + 1) as u32),
        }
    }
}

/// The entry node of the room `id` that follows the cursor `counter`: its
/// address and its counter.
pub open spec fn lookup_spec(rooms: Map<u64, Seq<Boot>>, id: Id, counter: u32) -> Option<
    (Addr, u32),
> {
    if rooms.contains_key(id@) {
        match next_boot(rooms[id@], counter) {
            Some(b) => Some((b.adr, b.counter)),
            None => None,
        }
    } else {
        None
    }
}

/// The rooms of a map, each once, in the order in which the map hands them
/// out.
fn key_list(m: &HashMap<u64, Vec<Boot>>) -> (keys: Vec<u64>)
    ensures
        keys@.no_duplicates(),
        keys@.to_set() == m@.dom(),
{
    broadcast use vstd::std_specs::hash::group_hash_axioms;

    let mut keys: Vec<u64> = Vec::new();
    let ghost all = spec_keys_iter(m).remaining();
    for k in it: m.keys()
        invariant
            it.seq() == all,
            keys@ == all.take(it.index()).unref(),
    {
        keys.push(*k);
        assert(all.take(it.index() + 1).unref() =~= all.take(it.index()).unref().push(*k));
    }
    assert(all.take(all.len() as int) =~= all);
    assert(keys@ =~= all.unref());
    assert(keys@.no_duplicates()) by {
        assert forall|i: int, j: int|
            0 <= i < keys@.len() && 0 <= j < keys@.len() && i != j implies keys@[i]
            != keys@[j] by {
            assert(all[i] != all[j]);
        }
    }
    keys
}

/// The fresh entry nodes of a room, and the earliest time at which one of them
/// was seen.
fn fresh_of(boots: &Vec<Boot>, thres: u64, now: u64) -> (r: (Vec<Boot>, Option<u64>))
    ensures
        r.0@ == keep_fresh(boots@, thres, now),
        match r.1 {
            Some(m) => {
                &&& exists|j: int| 0 <= j < r.0@.len() && #[trigger] r.0@[j].ttl == m
                &&& forall|j: int| 0 <= j < r.0@.len() ==> m <= #[trigger] r.0@[j].ttl
            },
            None => r.0@.len() == 0,
        },
{
    let mut kept: Vec<Boot> = Vec::new();
    let mut least: Option<u64> = None;
    let mut j: usize = 0;
    proof {
        assert(boots@.take(0) =~= Seq::<Boot>::empty());
    }
    while j < boots.len()
        invariant
            j <= boots@.len(),
            kept@ == keep_fresh(boots@.take(j as int), thres, now),
            match least {
                Some(m) => {
                    &&& exists|x: int| 0 <= x < kept@.len() && #[trigger] kept@[x].ttl == m
                    &&& forall|x: int| 0 <= x < kept@.len() ==> m <= #[trigger] kept@[x].ttl
                },
                None => kept@.len() == 0,
            },
        decreases boots@.len() - j,
    {
        proof {
            assert(boots@.take(j + 1).drop_last() =~= boots@.take(j as int));
            assert(boots@.take(j + 1).last() == boots@[j as int]);
        }
        let boot = boots[j];
        let dur: u64 = if now >= boot.ttl {
            now - boot.ttl
        } else {
            0
        };
        if dur <= thres {
            let ghost before = kept@;
            kept.push(boot);
            let smaller = match least {
                Some(m) => boot.ttl < m,
                None => true,
            };
            proof {
                assert(forall|x: int| 0 <= x < before.len() ==> kept@[x] == before[x]);
                assert(kept@[before.len() as int] == boot);
            }
            if smaller {
                least = Some(boot.ttl);
            } else {
                proof {
                    let m = least->Some_0;
                    let x = choose|x: int| 0 <= x < before.len() && #[trigger] before[x].ttl == m;
                    assert(kept@[x].ttl == m);
                }
            }
        }
        j += 1;
    }
    proof {
        assert(boots@.take(j as int) =~= boots@);
    }
    (kept, least)
}

impl Data {
    /// The book is finite.
    pub proof fn lemma_finite(&self)
        ensures
            self@.dom().finite(),
    {
        broadcast use vstd::std_specs::hash::group_hash_axioms;

        assert(self@.dom() =~= self.rooms@.dom());
    }

    pub fn new() -> (d: Data)
        ensures
            d@ == Map::<u64, Seq<Boot>>::empty(),
    {
        let d = Data { rooms: HashMap::new() };
        assert(d@ =~= Map::<u64, Seq<Boot>>::empty());
        d
    }

    /// add `adr` as an bootstrap node for a room with id `id`.
    /// if `adr` already exists for `id`, then update the ttl for it.
    /// `counter` is a global variable for ids.
    pub fn update(&mut self, counter: &mut u32, id: Id, adr: Addr, now: u64)
        requires
            *old(counter) < u32::MAX,
        ensures
            (final(self)@, *final(counter)) == update_spec(old(self)@, *old(counter), id, adr, now),
            *old(counter) <= *final(counter),
    {
        broadcast use vstd::std_specs::hash::group_hash_axioms;

        let key = id.into_u64();
        match self.rooms.remove(&key) {
            None => {
                *counter = *counter + 1;
                let mut boots: Vec<Boot> = Vec::new();
                boots.push(Boot { adr, ttl: now, counter: *counter });
                proof {
                    assert(boots@ =~= seq![Boot { adr, ttl: now, counter: *counter }]);
                }
                self.rooms.insert(key, boots);
                proof {
                    assert(self@ =~= old(self)@.insert(key, boots@));
                }
            },
            Some(boots) => {
                let mut boots = boots;
                let ghost bs = boots@;
                let mut j: usize = 0;
                let mut found: Option<usize> = None;
                while j < boots.len() && found.is_none()
                    invariant
                        bs == boots@,
                        j <= bs.len(),
                        match found {
                            Some(f) => f < bs.len() && boot_index(bs, adr) == Some(f as int),
                            None => boot_index(bs.take(j as int), adr) is None,
                        },
                    decreases bs.len() - j + if found is None { 1int } else { 0int },
                {
                    proof {
                        assert(bs.take(j + 1).drop_last() =~= bs.take(j as int));
                        assert(bs.take(j + 1).last() == bs[j as int]);
                    }
                    if boots[j].adr == adr {
                        proof {
                            lemma_boot_index_prefix(bs, adr, j + 1);
                        }
                        found = Some(j);
                    } else {
                        j += 1;
                    }
                }
                match found {
                    Some(f) => {
                        boots[f].ttl = now;
                        proof {
                            assert(boots@ =~= bs.update(f as int, Boot { ttl: now, ..bs[f as int] }));
                        }
                    },
                    None => {
                        proof {
                            assert(bs.take(j as int) =~= bs);
                        }
                        *counter = *counter + 1;
                        boots.push(Boot { adr, ttl: now, counter: *counter });
                    },
                }
                let ghost after = boots@;
                self.rooms.insert(key, boots);
                proof {
                    assert(old(self)@[key] == bs);
                    assert(self@ =~= old(self)@.insert(key, after));
                }
            },
        }
    }

    /// find the address and counter for the next bootstrap node for room with id `id`.
    /// `counter` is the counter of the previously looked up node for room `id`,
    /// This makes sure that we aren't returning the same node twice.
    /// If this is the first lookup for `id`, then use `counter` = 0.
    /// If there aren't any nodes left in the "database", then `None` is returned.
    pub fn lookup(&self, id: Id, counter: u32) -> (r: Option<(Addr, u32)>)
        ensures
            r == lookup_spec(self@, id, counter),
            r matches Some(found) ==> found.1 > counter,
    {
        broadcast use vstd::std_specs::hash::group_hash_axioms;

        let key = id.into_u64();
        match self.rooms.get(&key) {
            Some(boots) => {
                let mut j: usize = 0;
                proof {
                    assert(boots@.take(0) =~= Seq::<Boot>::empty());
                }
                while j < boots.len()
                    invariant
                        j <= boots@.len(),
                        self@.contains_key(id@),
                        boots@ == self@[id@],
                        next_boot(boots@.take(j as int), counter) is None,
                    decreases boots@.len() - j,
                {
                    proof {
                        assert(boots@.take(j + 1).drop_last() =~= boots@.take(j as int));
                        assert(boots@.take(j + 1).last() == boots@[j as int]);
                    }
                    if boots[j].counter > counter {
                        proof {
                            lemma_next_boot_prefix(boots@, counter, j + 1);
                        }
                        return Some((boots[j].adr, boots[j].counter));
                    }
                    j += 1;
                }
                proof {
                    assert(boots@.take(j as int) =~= boots@);
                }
                None
            },
            None => None,
        }
    }

    /// remove everything older than `thres`
    /// returns the time of the oldest entry that is left
    pub fn remove_old(&mut self, thres: u64, now: u64) -> (oldest: Option<u64>)
        ensures
            final(self)@ == prune(old(self)@, thres, now),
            is_oldest(final(self)@, oldest),
    {
        broadcast use vstd::std_specs::hash::group_hash_axioms;

        let keys = key_list(&self.rooms);
        let ghost book = self@;
        let ghost pruned = prune(book, thres, now);
        let mut oldest: Option<u64> = None;
        let mut i: usize = 0;
        proof {
            assert(book.dom() =~= self.rooms@.dom());
            assert(keys@.take(0).to_set() =~= Set::<u64>::empty());
            assert(self@ =~= prune_some(book, Set::<u64>::empty(), thres, now));
        }
        while i < keys.len()
            invariant
                i <= keys@.len(),
                keys@.no_duplicates(),
                keys@.to_set() == book.dom(),
                pruned == prune(book, thres, now),
                self@ == prune_some(book, keys@.take(i as int).to_set(), thres, now),
                is_oldest_among(pruned, keys@.take(i as int).to_set(), oldest),
            decreases keys@.len() - i,
        {
            let k = keys[i];
            let ghost done = keys@.take(i as int).to_set();
            let ghost next = keys@.take(i + 1).to_set();
            proof {
                assert(keys@.take(i + 1) =~= keys@.take(i as int).push(k));
                crate::network::addrmap::lemma_push_to_set(keys@.take(i as int), k);
                assert(keys@.contains(k));
                assert(book.contains_key(k));
                assert(!done.contains(k)) by {
                    if keys@.take(i as int).contains(k) {
                        let x = keys@.take(i as int).index_of(k);
                        assert(keys@[x] == keys@[i as int]);
                    }
                }
                assert(self@.contains_key(k) && self@[k] == book[k]);
            }
            let ghost start = self@;
            match self.rooms.remove(&k) {
                Some(boots) => {
                    let (kept, least) = fresh_of(&boots, thres, now);
                    let ghost kv = kept@;
                    if kept.len() > 0 {
                        self.rooms.insert(k, kept);
                    }
                    proof {
                        assert(boots@ == book[k]);
                        assert(next =~= done.insert(k));
                        let goal = prune_some(book, next, thres, now);
                        assert forall|x: u64| self@.contains_key(x) <==> goal.contains_key(x) by {
                            if x != k {
                                assert(self@.contains_key(x) == start.contains_key(x));
                            }
                        }
                        assert forall|x: u64| self@.contains_key(x) implies self@[x] == goal[x] by {
                            if x != k {
                                assert(self@[x] == start[x]);
                                assert(next.contains(x) == done.contains(x));
                                assert(start.contains_key(x));
                            } else {
                                assert(kv.len() > 0);
                                assert(self@[k] == kv);
                                assert(kv == keep_fresh(book[k], thres, now));
                                assert(next.contains(k));
                            }
                        }
                        assert(self@ =~= goal);
                        if kv.len() > 0 {
                            assert(pruned.contains_key(k) && pruned[k] == kv);
                        } else {
                            assert(!pruned.contains_key(k));
                        }
                    }
                    let ghost before = oldest;
                    oldest = match (oldest, least) {
                        (Some(a), Some(b)) => if b < a {
                            Some(b)
                        } else {
                            Some(a)
                        },
                        (Some(a), None) => Some(a),
                        (None, other) => other,
                    };
                    proof {
                        lemma_oldest_step(pruned, done, k, before, least, oldest);
                    }
                },
                None => {},
            }
            i += 1;
        }
        proof {
            assert(keys@.take(i as int) =~= keys@);
            assert(self@ =~= pruned);
            assert forall|k: u64| pruned.dom().contains(k) implies book.dom().contains(k) by {}
            lemma_oldest_widen(pruned, book.dom(), oldest);
        }
        oldest
    }

    /// The number of entry nodes in the book; `usize::MAX` where there are
    /// more than that.
    pub fn length(&self) -> (res: usize)
        ensures
            res == if total(self@) <= usize::MAX {
                total(self@)
            } else {
                usize::MAX as nat
            },
    {
        broadcast use vstd::std_specs::hash::group_hash_axioms;

        let keys = key_list(&self.rooms);
        let mut res: usize = 0;
        let mut i: usize = 0;
        proof {
            assert(self@.dom() =~= self.rooms@.dom());
            assert(keys@.take(0) =~= Seq::<u64>::empty());
        }
        while i < keys.len()
            invariant
                i <= keys@.len(),
                keys@.to_set() == self@.dom(),
                res == if total_of(self@, keys@.take(i as int)) <= usize::MAX {
                    total_of(self@, keys@.take(i as int))
                } else {
                    usize::MAX as nat
                },
            decreases keys@.len() - i,
        {
            proof {
                assert(keys@.take(i + 1).drop_last() =~= keys@.take(i as int));
                assert(keys@.take(i + 1).last() == keys@[i as int]);
                assert(keys@.contains(keys@[i as int]));
                assert(self@.contains_key(keys@[i as int]));
            }
            let n = match self.rooms.get(&keys[i]) {
                Some(boots) => boots.len(),
                None => 0,
            };
            res = if n <= usize::MAX - res {
                res + n
            } else {
                usize::MAX
            };
            i += 1;
        }
        proof {
            assert(keys@.take(i as int) =~= keys@);
            self.lemma_finite();
            lemma_total_any_order(self@, keys@);
        }
        res
    }
}

/// The earliest time among the rooms looked at so far, after one more room was
/// looked at.
pub proof fn lemma_oldest_step(
    rooms: Map<u64, Seq<Boot>>,
    done: Set<u64>,
    k: u64,
    before: Option<u64>,
    least: Option<u64>,
    after: Option<u64>,
)
    requires
        !done.contains(k),
        is_oldest_among(rooms, done, before),
        rooms.contains_key(k) ==> match least {
            Some(m) => {
                &&& exists|j: int| 0 <= j < rooms[k].len() && #[trigger] rooms[k][j].ttl == m
                &&& forall|j: int| 0 <= j < rooms[k].len() ==> m <= #[trigger] rooms[k][j].ttl
            },
            None => false,
        },
        !rooms.contains_key(k) ==> least is None,
        after == match (before, least) {
            (Some(a), Some(b)) => if b < a {
                Some(b)
            } else {
                Some(a)
            },
            (Some(a), None) => Some(a),
            (None, other) => other,
        },
    ensures
        is_oldest_among(rooms, done.insert(k), after),
{
    let next = done.insert(k);
    match after {
        Some(m) => {
            if least == Some(m) {
                let j = choose|j: int| 0 <= j < rooms[k].len() && #[trigger] rooms[k][j].ttl == m;
                assert(next.contains(k) && rooms.contains_key(k) && rooms[k][j].ttl == m);
            } else {
                let (x, j) = choose|x: u64, j: int|
                    done.contains(x) && rooms.contains_key(x) && 0 <= j < rooms[x].len()
                        && #[trigger] rooms[x][j].ttl == m;
                assert(next.contains(x) && rooms[x][j].ttl == m);
            }
            assert forall|x: u64, j: int|
                next.contains(x) && rooms.contains_key(x) && 0 <= j < rooms[x].len() implies m
                <= #[trigger] rooms[x][j].ttl by {
                if x == k {
                } else {
                    assert(done.contains(x));
                    if before is Some {
                    } else {
                        assert(rooms[x].len() == 0);
                    }
                }
            }
        },
        None => {
            assert forall|x: u64| next.contains(x) && rooms.contains_key(x) implies (
            #[trigger] rooms[x]).len() == 0 by {
                if x != k {
                    assert(done.contains(x));
                }
            }
        },
    }
}

/// The earliest time among rooms that include all rooms of the book is the
/// earliest time of the book.
pub proof fn lemma_oldest_widen(rooms: Map<u64, Seq<Boot>>, among: Set<u64>, oldest: Option<u64>)
    requires
        is_oldest_among(rooms, among, oldest),
        forall|k: u64| rooms.dom().contains(k) ==> among.contains(k),
    ensures
        is_oldest(rooms, oldest),
{
    match oldest {
        Some(m) => {
            let (x, j) = choose|x: u64, j: int|
                among.contains(x) && rooms.contains_key(x) && 0 <= j < rooms[x].len()
                    && #[trigger] rooms[x][j].ttl == m;
            assert(rooms.dom().contains(x) && rooms[x][j].ttl == m);
        },
        None => {},
    }
}

/// Taking one room out of a list of rooms takes its entry nodes out of the
/// count.
pub proof fn lemma_total_of_remove(rooms: Map<u64, Seq<Boot>>, keys: Seq<u64>, p: int)
    requires
        0 <= p < keys.len(),
    ensures
        total_of(rooms, keys) == total_of(rooms, keys.remove(p)) + rooms[keys[p]].len(),
    decreases keys.len(),
{
    if p == keys.len() - 1 {
        assert(keys.remove(p) =~= keys.drop_last());
    } else {
        lemma_total_of_remove(rooms, keys.drop_last(), p);
        assert(keys.remove(p).drop_last() =~= keys.drop_last().remove(p));
        assert(keys.remove(p).last() == keys.last());
    }
}

/// The count over a list of rooms does not depend on a room that the list does
/// not name.
pub proof fn lemma_total_of_without(rooms: Map<u64, Seq<Boot>>, keys: Seq<u64>, k: u64)
    requires
        !keys.contains(k),
    ensures
        total_of(rooms.remove(k), keys) == total_of(rooms, keys),
    decreases keys.len(),
{
    if keys.len() > 0 {
        assert(forall|x: int| 0 <= x < keys.len() - 1 ==> keys.drop_last()[x] == keys[x]);
        assert(!keys.drop_last().contains(k)) by {
            if keys.drop_last().contains(k) {
                let x = keys.drop_last().index_of(k);
                assert(keys[x] == k);
            }
        }
        lemma_total_of_without(rooms, keys.drop_last(), k);
        assert(keys[keys.len() - 1] != k);
    }
}

/// The rooms of a finite book, listed each once in any order, count the entry
/// nodes of the book.
pub proof fn lemma_total_any_order(rooms: Map<u64, Seq<Boot>>, keys: Seq<u64>)
    requires
        rooms.dom().finite(),
        keys.no_duplicates(),
        keys.to_set() == rooms.dom(),
    ensures
        total_of(rooms, keys) == total(rooms),
    decreases keys.len(),
{
    keys.unique_seq_to_set();
    if keys.len() > 0 {
        let k = rooms.dom().choose();
        assert(rooms.dom().contains(k));
        assert(keys.to_set().contains(k));
        assert(keys.contains(k));
        let p = keys.index_of(k);
        let rest = keys.remove(p);
        lemma_total_of_remove(rooms, keys, p);
        assert(rest.no_duplicates()) by {
            assert forall|x: int, y: int|
                0 <= x < rest.len() && 0 <= y < rest.len() && x != y implies rest[x] != rest[y] by {
                let x0 = if x < p { x } else { x + 1 };
                let y0 = if y < p { y } else { y + 1 };
                assert(keys[x0] != keys[y0]);
            }
        }
        assert(!rest.contains(k)) by {
            if rest.contains(k) {
                let y = rest.index_of(k);
                let y0 = if y < p { y } else { y + 1 };
                assert(keys[y0] == keys[p]);
            }
        }
        assert(rest.to_set() =~= rooms.remove(k).dom()) by {
            assert forall|v: u64| rest.contains(v) <==> (rooms.dom().contains(v) && v != k) by {
                if rest.contains(v) {
                    let y = rest.index_of(v);
                    let y0 = if y < p { y } else { y + 1 };
                    assert(keys[y0] == v);
                    assert(keys.contains(v));
                    assert(keys.to_set().contains(v));
                }
                if rooms.dom().contains(v) && v != k {
                    assert(keys.to_set().contains(v));
                    assert(keys.contains(v));
                    let y0 = keys.index_of(v);
                    let y = if y0 < p { y0 } else { y0 - 1 };
                    assert(rest[y] == v);
                }
            }
        }
        lemma_total_of_without(rooms, rest, k);
        lemma_total_any_order(rooms.remove(k), rest);
    }
}

/// Where the first entry node with an address is found among the first `k`,
/// it is the first among all.
pub proof fn lemma_boot_index_prefix(boots: Seq<Boot>, adr: Addr, k: int)
    requires
        0 <= k <= boots.len(),
        boot_index(boots.take(k), adr) is Some,
    ensures
        boot_index(boots, adr) == boot_index(boots.take(k), adr),
    decreases boots.len() - k,
{
    if k < boots.len() {
        assert(boots.take(k + 1).drop_last() =~= boots.take(k));
        lemma_boot_index_prefix(boots, adr, k + 1);
    } else {
        assert(boots.take(k) =~= boots);
    }
}

/// Where the entry node that follows a cursor is found among the first `k`, it
/// is the one that follows among all.
pub proof fn lemma_next_boot_prefix(boots: Seq<Boot>, counter: u32, k: int)
    requires
        0 <= k <= boots.len(),
        next_boot(boots.take(k), counter) is Some,
    ensures
        next_boot(boots, counter) == next_boot(boots.take(k), counter),
    decreases boots.len() - k,
{
    if k < boots.len() {
        assert(boots.take(k + 1).drop_last() =~= boots.take(k));
        lemma_next_boot_prefix(boots, counter, k + 1);
    } else {
        assert(boots.take(k) =~= boots);
    }
}

/// The entry node that follows a cursor has a counter above the cursor.
pub proof fn lemma_next_boot_above(boots: Seq<Boot>, counter: u32)
    ensures
        next_boot(boots, counter) matches Some(b) ==> b.counter > counter,
    decreases boots.len(),
{
    if boots.len() > 0 {
        lemma_next_boot_above(boots.drop_last(), counter);
    }
}

/// The tracker: its book, the counter that it hands out, and the time for which
/// a peer is kept.
pub struct Tracker {
    data: Data,
    counter: u32,
    oldest_sys_time: u64,
    boot_ttl: u64,
}

/// What a tracker holds.
pub struct TrackerView {
    /// The book.
    pub data: Map<u64, Seq<Boot>>,
    /// The counter that was handed out last.
    pub counter: u32,
    /// The earliest time at which a peer of the book was seen.
    pub oldest_sys_time: u64,
    /// The time, in milliseconds, for which a peer is kept.
    pub boot_ttl: u64,
}

impl View for Tracker {
    type V = TrackerView;

    closed spec fn view(&self) -> TrackerView {
        TrackerView {
            data: self.data@,
            counter: self.counter,
            oldest_sys_time: self.oldest_sys_time,
            boot_ttl: self.boot_ttl,
        }
    }
}

impl TrackerView {
    /// The tracker's answer to `query`, from the book as it stands.
    pub open spec fn answer(self, query: TrackQuery) -> TrackResp {
        match query {
            TrackQuery::Update { id, adr } => TrackResp::UpdateSuccess { id, ttl: self.boot_ttl },
            TrackQuery::Lookup { id, last_lookup } => match lookup_spec(self.data, id, last_lookup) {
                Some((a, c)) => TrackResp::LookupAns { adr: Some(a), lookup_id: c },
                None => TrackResp::LookupAns { adr: None, lookup_id: 0 },
            },
        }
    }

    /// The tracker after `query` was taken at the time `now`: an update is
    /// written into the book; and when the oldest entry has outlived its time,
    /// the book is pruned.
    pub open spec fn serve(self, query: TrackQuery, now: u64, oldest: Option<u64>) -> TrackerView {
        let written = match query {
            TrackQuery::Update { id, adr } => {
                let u = update_spec(self.data, self.counter, id, adr, now);
                TrackerView { data: u.0, counter: u.1, ..self }
            },
            TrackQuery::Lookup { id, last_lookup } => self,
        };
        if elapsed(self.oldest_sys_time, now) > self.boot_ttl {
            TrackerView {
                data: prune(written.data, self.boot_ttl, now),
                oldest_sys_time: match oldest {
                    Some(o) => o,
                    None => now,
                },
                ..written
            }
        } else {
            written
        }
    }
}

impl Tracker {
    /// A tracker with an empty book that keeps a peer for `ttl` seconds, set up
    /// at the time `now`.
    pub fn start(ttl: u64, now: u64) -> (t: Tracker)
        requires
            ttl * 1000 <= u64::MAX,
        ensures
            t@ == (TrackerView {
                data: Map::empty(),
                counter: 0,
                oldest_sys_time: now,
                boot_ttl: (ttl * 1000) as u64,
            }),
    {
        Tracker { data: Data::new(), counter: 0, oldest_sys_time: now, boot_ttl: ttl * 1000 }
    }

    /// Whether the tracker has handed out its last counter and can take no new
    /// peer.
    pub fn exhausted(&self) -> (r: bool)
        ensures
            r == (self@.counter == u32::MAX),
    {
        self.counter == u32::MAX
    }

    /// Takes a query at the time `now` and gives the answer to send back: see
    /// `TrackerView::answer` and `TrackerView::serve`. A lookup is answered
    /// from the book as it was before the query.
    pub fn handle(&mut self, query: TrackQuery, now: u64) -> (resp: TrackResp)
        requires
            old(self)@.counter < u32::MAX,
        ensures
            resp == old(self)@.answer(query),
            exists|oldest: Option<u64>|
                {
                    &&& final(self)@ == #[trigger] old(self)@.serve(query, now, oldest)
                    &&& elapsed(old(self)@.oldest_sys_time, now) > old(self)@.boot_ttl ==> is_oldest(
                        final(self)@.data,
                        oldest,
                    )
                },
            old(self)@.counter <= final(self)@.counter,
    {
        let resp = match query {
            TrackQuery::Update { id, adr } => {
                self.data.update(&mut self.counter, id, adr, now);
                TrackResp::UpdateSuccess { id, ttl: self.boot_ttl }
            },
            TrackQuery::Lookup { id, last_lookup } => {
                match self.data.lookup(id, last_lookup) {
                    Some((a, c)) => TrackResp::LookupAns { adr: Some(a), lookup_id: c },
                    None => TrackResp::LookupAns { adr: None, lookup_id: 0 },
                }
            },
        };
        let dur: u64 = if now >= self.oldest_sys_time {
            now - self.oldest_sys_time
        } else {
            0
        };
        if dur > self.boot_ttl {
            let oldest = self.data.remove_old(self.boot_ttl, now);
            self.oldest_sys_time = match oldest {
                Some(o) => o,
                None => now,
            };
            proof {
                assert(self@ == old(self)@.serve(query, now, oldest));
            }
        } else {
            proof {
                assert(self@ == old(self)@.serve(query, now, None));
            }
        }
        resp
    }
}

/// The cursors of the addresses that a walk yields when it is answered from
/// the books `books`, one after another.
pub open spec fn walk(s: LookupSession, books: Seq<Map<u64, Seq<Boot>>>) -> (
    LookupSession,
    Seq<u32>,
)
    decreases books.len(),
{
    if books.len() == 0 {
        (s, Seq::empty())
    } else {
        let before = walk(s, books.drop_last());
        let step = step_of(before.0, books.last());
        match step.1 {
            Some(c) => (step.0, before.1.push(c)),
            None => (step.0, before.1),
        }
    }
}

/// The walk after one step that was answered from the book `book`, and the
/// cursor of the address that the step yielded, if it yielded one.
pub open spec fn step_of(s: LookupSession, book: Map<u64, Seq<Boot>>) -> (
    LookupSession,
    Option<u32>,
) {
    let found = lookup_spec(book, s.id, s.last_lookup);
    let next = s.spec_next(
        Ok(
            match found {
                Some((a, c)) => (Some(a), c),
                None => (None, 0u32),
            },
        ),
    );
    (
        next.0,
        match next.1 {
            Some(Ok(_)) => Some(next.0.last_lookup),
            _ => None,
        },
    )
}

/// One step of a walk never yields the cursor again that it started from: an
/// address is yielded with a cursor above.
pub proof fn lemma_step_advances(s: LookupSession, book: Map<u64, Seq<Boot>>)
    ensures
        step_of(s, book).0.last_lookup >= s.last_lookup,
        step_of(s, book).1 matches Some(c) ==> c > s.last_lookup && c == step_of(
            s,
            book,
        ).0.last_lookup,
{
    if book.contains_key(s.id@) {
        lemma_next_boot_above(book[s.id@], s.last_lookup);
    }
}

/// A walk never yields the same counter twice: the counters of the addresses
/// that it yields are strictly increasing, whatever happens to the tracker's
/// book between two steps.
pub proof fn lemma_walk_increases(s: LookupSession, books: Seq<Map<u64, Seq<Boot>>>)
    ensures
        walk(s, books).0.last_lookup >= s.last_lookup,
        forall|i: int|
            0 <= i < walk(s, books).1.len() ==> s.last_lookup < #[trigger] walk(s, books).1[i]
                <= walk(s, books).0.last_lookup,
        forall|i: int, j: int|
            #![trigger walk(s, books).1[i], walk(s, books).1[j]]
            0 <= i < j < walk(s, books).1.len() ==> walk(s, books).1[i] < walk(s, books).1[j],
    decreases books.len(),
{
    if books.len() > 0 {
        lemma_walk_increases(s, books.drop_last());
        let before = walk(s, books.drop_last());
        lemma_step_advances(before.0, books.last());
    }
}

} // verus!
