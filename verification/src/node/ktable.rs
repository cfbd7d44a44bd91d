//! The Kademlia routing table: 64 buckets of peers, indexed by the number of
//! leading bits that a peer's identifier shares with the owner's.

use vstd::prelude::*;
use crate::common::id::Id;
use crate::common::id::lemma_distance_injective;
use crate::common::id::lemma_common_bits_range;
use crate::common::random_below;
use crate::network::Addr;

verus! {

/// The number of buckets of a routing table: one for each possible length of a
/// proper common prefix of two 64-bit identifiers.
pub const BUCKETS: usize = 64;

/// A directory record: where a peer can be reached, and its identifier.
#[derive(Copy, Clone, PartialEq, Eq, Debug, Hash, Structural)]
pub struct Entry {
    pub sock: Addr,
    pub id: Id,
}

impl Entry {
    pub fn new(sock: Addr, id: Id) -> (e: Entry)
        ensures
            e == (Entry { sock, id }),
    {
        Entry { sock, id }
    }

    pub fn get_id(&self) -> (id: Id)
        ensures
            id == self.id,
    {
        self.id
    }

    pub fn get_addr(&self) -> (sock: Addr)
        ensures
            sock == self.sock,
    {
        self.sock
    }
}

/// The XOR distance of an entry from `center`.
pub open spec fn dist_to(center: Id, e: Entry) -> u64 {
    center.spec_distance(e.id)
}

/// Whether the entries come in strictly ascending distance from `center`.
pub open spec fn sorted_from(center: Id, s: Seq<Entry>) -> bool {
    forall|i: int, j: int|
        #![trigger s[i], s[j]]
        0 <= i < j < s.len() ==> dist_to(center, s[i]) < dist_to(center, s[j])
}

/// Whether some entry of `s` has the identifier `id`.
pub open spec fn has_id(s: Seq<Entry>, id: Id) -> bool {
    exists|i: int| 0 <= i < s.len() && (#[trigger] s[i]).id == id
}

/// Whether no two entries of `s` share an identifier.
pub open spec fn distinct_ids(s: Seq<Entry>) -> bool {
    forall|i: int, j: int| #![trigger s[i], s[j]] 0 <= i < j < s.len() ==> s[i].id != s[j].id
}

/// The number of entries of `s` that are closer to `center` than `id` is.
pub open spec fn closer_count(center: Id, s: Seq<Entry>, id: Id) -> nat
    decreases s.len(),
{
    if s.len() == 0 {
        0
    } else {
        closer_count(center, s.drop_last(), id) + if dist_to(center, s.last())
            < center.spec_distance(id) {
            1nat
        } else {
            0nat
        }
    }
}

/// `s` with `e` put behind the entries that are closer to `center`, and the
/// last entry dropped where that makes more than `cap`.
pub open spec fn insert_bounded(center: Id, s: Seq<Entry>, e: Entry, cap: nat) -> Seq<Entry> {
    let grown = s.insert(closer_count(center, s, e.id) as int, e);
    if grown.len() > cap {
        grown.drop_last()
    } else {
        grown
    }
}

/// The entries of `s` whose identifier is not `id`, in their order.
pub open spec fn without_id(s: Seq<Entry>, id: Id) -> Seq<Entry> {
    s.filter(|e: Entry| e.id != id)
}

/// What is kept of `es` when its entries are put one by one into a list that is
/// sorted by distance from `center` and never holds more than `n`.
pub open spec fn closest(center: Id, es: Seq<Entry>, n: nat) -> Seq<Entry>
    decreases es.len(),
{
    if es.len() == 0 {
        Seq::empty()
    } else {
        insert_bounded(center, closest(center, es.drop_last(), n), es.last(), n)
    }
}

/// Whether `r` holds the `n` entries of `es` that are nearest to `center` (all
/// of them where `es` has fewer), nearest first.
pub open spec fn is_closest(center: Id, es: Seq<Entry>, n: nat, r: Seq<Entry>) -> bool {
    &&& sorted_from(center, r)
    &&& r.len() == if n <= es.len() { n } else { es.len() }
    &&& forall|i: int| 0 <= i < r.len() ==> es.contains(#[trigger] r[i])
    &&& forall|i: int, j: int|
        #![trigger r[i], es[j]]
        0 <= i < r.len() && 0 <= j < es.len() && !r.contains(es[j]) ==> dist_to(center, r[i])
            < dist_to(center, es[j])
}

/// In a list sorted from `center`, the entries closer than `id` are exactly
/// those before the first entry that is not.
pub proof fn lemma_closer_count_at(center: Id, s: Seq<Entry>, id: Id, p: int)
    requires
        0 <= p <= s.len(),
        forall|j: int| 0 <= j < p ==> dist_to(center, #[trigger] s[j]) < center.spec_distance(id),
        forall|j: int|
            p <= j < s.len() ==> dist_to(center, #[trigger] s[j]) >= center.spec_distance(id),
    ensures
        closer_count(center, s, id) == p,
    decreases s.len(),
{
    if s.len() > 0 {
        let t = s.drop_last();
        assert(forall|j: int| 0 <= j < t.len() ==> t[j] == s[j]);
        if p == s.len() {
            lemma_closer_count_at(center, t, id, p - 1);
            assert(dist_to(center, s[p - 1]) < center.spec_distance(id));
        } else {
            lemma_closer_count_at(center, t, id, p);
            assert(dist_to(center, s[s.len() - 1]) >= center.spec_distance(id));
        }
    }
}

/// The number of closer entries is at most the length.
pub proof fn lemma_closer_count_bound(center: Id, s: Seq<Entry>, id: Id)
    ensures
        closer_count(center, s, id) <= s.len(),
    decreases s.len(),
{
    if s.len() > 0 {
        lemma_closer_count_bound(center, s.drop_last(), id);
    }
}

/// In a sorted list that lacks `id`, the entries before position
/// `closer_count` are closer than `id` and those from it on are farther.
pub proof fn lemma_closer_count_splits(center: Id, s: Seq<Entry>, id: Id)
    requires
        sorted_from(center, s),
        !has_id(s, id),
    ensures
        closer_count(center, s, id) <= s.len(),
        forall|j: int|
            0 <= j < closer_count(center, s, id) ==> dist_to(center, #[trigger] s[j])
                < center.spec_distance(id),
        forall|j: int|
            closer_count(center, s, id) <= j < s.len() ==> dist_to(center, #[trigger] s[j])
                > center.spec_distance(id),
    decreases s.len(),
{
    if s.len() > 0 {
        let t = s.drop_last();
        assert(forall|j: int| 0 <= j < t.len() ==> t[j] == s[j]);
        assert(!has_id(t, id)) by {
            if has_id(t, id) {
                let i = choose|i: int| 0 <= i < t.len() && (#[trigger] t[i]).id == id;
                assert(s[i].id == id);
            }
        }
        lemma_closer_count_splits(center, t, id);
        let last = s[s.len() - 1];
        assert(last.id != id);
        lemma_distance_injective(center, last.id, id);
        if dist_to(center, last) < center.spec_distance(id) {
            assert forall|j: int| 0 <= j < s.len() implies dist_to(center, #[trigger] s[j])
                < center.spec_distance(id) by {
                if j < s.len() - 1 {
                    assert(dist_to(center, s[j]) < dist_to(center, s[s.len() - 1]));
                }
            }
            lemma_closer_count_at(center, t, id, t.len() as int);
        }
    }
}

/// Putting an entry with a new identifier into a sorted list keeps it sorted.
pub proof fn lemma_insert_sorted(center: Id, s: Seq<Entry>, e: Entry)
    requires
        sorted_from(center, s),
        !has_id(s, e.id),
    ensures
        closer_count(center, s, e.id) <= s.len(),
        sorted_from(center, s.insert(closer_count(center, s, e.id) as int, e)),
{
    lemma_closer_count_splits(center, s, e.id);
    let p = closer_count(center, s, e.id) as int;
    let g = s.insert(p, e);
    assert forall|i: int, j: int| #![trigger g[i], g[j]] 0 <= i < j < g.len() implies dist_to(
        center,
        g[i],
    ) < dist_to(center, g[j]) by {
        if i < p {
            assert(g[i] == s[i]);
            if j < p {
                assert(g[j] == s[j]);
            } else if j > p {
                assert(g[j] == s[j - 1]);
                if j - 1 > i {
                    assert(dist_to(center, s[i]) < dist_to(center, s[j - 1]));
                }
            }
        } else if i == p {
            assert(g[j] == s[j - 1]);
        } else {
            assert(g[i] == s[i - 1]);
            assert(g[j] == s[j - 1]);
            assert(dist_to(center, s[i - 1]) < dist_to(center, s[j - 1]));
        }
    }
}

/// A sorted list has no identifier twice.
pub proof fn lemma_sorted_distinct(center: Id, s: Seq<Entry>)
    requires
        sorted_from(center, s),
    ensures
        distinct_ids(s),
{
    assert forall|i: int, j: int| #![trigger s[i], s[j]] 0 <= i < j < s.len() implies s[i].id
        != s[j].id by {
        assert(dist_to(center, s[i]) < dist_to(center, s[j]));
    }
}

/// Where the identifiers of `es` are distinct, `closest` keeps the `n` entries
/// nearest to `center`, nearest first; and it keeps every entry where `es` has
/// no more than `n`.
pub proof fn lemma_closest_is_closest(center: Id, es: Seq<Entry>, n: nat)
    requires
        distinct_ids(es),
    ensures
        is_closest(center, es, n, closest(center, es, n)),
        es.len() <= n ==> forall|j: int|
            0 <= j < es.len() ==> closest(center, es, n).contains(#[trigger] es[j]),
    decreases es.len(),
{
    if es.len() == 0 {
        return ;
    }
    let t = es.drop_last();
    let e = es.last();
    let last = es.len() - 1;
    assert(forall|j: int| 0 <= j < t.len() ==> t[j] == es[j]);
    assert(distinct_ids(t));
    lemma_closest_is_closest(center, t, n);
    let r0 = closest(center, t, n);
    assert(!has_id(r0, e.id)) by {
        if has_id(r0, e.id) {
            let i = choose|i: int| 0 <= i < r0.len() && (#[trigger] r0[i]).id == e.id;
            assert(t.contains(r0[i]));
            let m = choose|m: int| 0 <= m < t.len() && t[m] == r0[i];
            assert(es[m].id == es[last].id);
        }
    }
    lemma_insert_sorted(center, r0, e);
    lemma_closer_count_splits(center, r0, e.id);
    let p = closer_count(center, r0, e.id) as int;
    let g = r0.insert(p, e);
    let r = closest(center, es, n);
    assert(r == if g.len() > n {
        g.drop_last()
    } else {
        g
    });
    assert(forall|i: int| 0 <= i < r.len() ==> r[i] == g[i]);
    assert(forall|i: int| 0 <= i < p ==> g[i] == r0[i]);
    assert(g[p] == e);
    assert(forall|i: int| p < i < g.len() ==> g[i] == r0[i - 1]);
    assert(sorted_from(center, r)) by {
        assert forall|i: int, j: int| #![trigger r[i], r[j]] 0 <= i < j < r.len() implies dist_to(
            center,
            r[i],
        ) < dist_to(center, r[j]) by {
            assert(dist_to(center, g[i]) < dist_to(center, g[j]));
        }
    }
    assert forall|i: int| 0 <= i < r.len() implies es.contains(#[trigger] r[i]) by {
        if i == p {
            assert(es[last] == e);
        } else {
            let i0 = if i < p {
                i
            } else {
                i - 1
            };
            assert(r[i] == r0[i0]);
            assert(t.contains(r0[i0]));
            let m = choose|m: int| 0 <= m < t.len() && t[m] == r0[i0];
            assert(es[m] == r[i]);
        }
    }
    if g.len() <= n {
        // nothing was dropped: every entry of `es` is kept
        assert(t.len() < n);
        assert forall|j: int| 0 <= j < es.len() implies r.contains(#[trigger] es[j]) by {
            if j == last {
                assert(r[p] == e);
            } else {
                assert(r0.contains(t[j]));
                let m = choose|m: int| 0 <= m < r0.len() && r0[m] == t[j];
                if m < p {
                    assert(r[m] == es[j]);
                } else {
                    assert(r[m + 1] == es[j]);
                }
            }
        }
    } else {
        assert(r0.len() == n);
        assert(r.len() == n);
        assert forall|i: int, j: int|
            #![trigger r[i], es[j]]
            0 <= i < r.len() && 0 <= j < es.len() && !r.contains(es[j]) implies dist_to(
            center,
            r[i],
        ) < dist_to(center, es[j]) by {
            let x = es[j];
            if j == last {
                // the new entry itself was dropped: it went behind all others
                if p < n {
                    assert(r[p] == e);
                }
                assert(p == n);
                assert(r[i] == r0[i]);
            } else {
                assert(x == t[j]);
                if r0.contains(x) {
                    let m = choose|m: int| 0 <= m < r0.len() && r0[m] == x;
                    if m < p {
                        assert(r[m] == x);
                    } else if m + 1 < n {
                        assert(r[m + 1] == x);
                    }
                    assert(m == n - 1 && p <= m);
                    if i < p {
                        assert(r[i] == r0[i]);
                        assert(dist_to(center, r0[i]) < dist_to(center, r0[m]));
                    } else if i == p {
                        assert(dist_to(center, r0[m]) > center.spec_distance(e.id));
                    } else {
                        assert(r[i] == r0[i - 1]);
                        assert(dist_to(center, r0[i - 1]) < dist_to(center, r0[m]));
                    }
                } else {
                    if i == p {
                        assert(dist_to(center, r0[p]) > center.spec_distance(e.id));
                        assert(dist_to(center, r0[p]) < dist_to(center, t[j]));
                    } else {
                        let i0 = if i < p {
                            i
                        } else {
                            i - 1
                        };
                        assert(r[i] == r0[i0]);
                        assert(dist_to(center, r0[i0]) < dist_to(center, t[j]));
                    }
                }
            }
        }
    }
}

/// Where `id` does not occur, removing it changes nothing.
pub proof fn lemma_without_id_absent(s: Seq<Entry>, id: Id)
    requires
        !has_id(s, id),
    ensures
        without_id(s, id) == s,
    decreases s.len(),
{
    reveal(Seq::filter);
    if s.len() > 0 {
        let t = s.drop_last();
        assert(forall|j: int| 0 <= j < t.len() ==> t[j] == s[j]);
        assert(!has_id(t, id)) by {
            if has_id(t, id) {
                let i = choose|i: int| 0 <= i < t.len() && (#[trigger] t[i]).id == id;
                assert(s[i].id == id);
            }
        }
        lemma_without_id_absent(t, id);
        assert(s[s.len() - 1].id != id);
        assert(t.push(s.last()) =~= s);
    }
}

/// In a list without repeated identifiers, removing `id` removes the one entry
/// that has it.
pub proof fn lemma_without_id_removes(s: Seq<Entry>, id: Id, p: int)
    requires
        distinct_ids(s),
        0 <= p < s.len(),
        s[p].id == id,
    ensures
        without_id(s, id) == s.remove(p),
    decreases s.len(),
{
    reveal(Seq::filter);
    let t = s.drop_last();
    assert(forall|j: int| 0 <= j < t.len() ==> t[j] == s[j]);
    if p == s.len() - 1 {
        assert(!has_id(t, id)) by {
            if has_id(t, id) {
                let i = choose|i: int| 0 <= i < t.len() && (#[trigger] t[i]).id == id;
                assert(s[i].id == s[p].id);
            }
        }
        lemma_without_id_absent(t, id);
        assert(s.remove(p) =~= t);
    } else {
        assert(distinct_ids(t));
        lemma_without_id_removes(t, id, p);
        assert(s[p].id != s[s.len() - 1].id);
        assert(t.remove(p).push(s.last()) =~= s.remove(p));
    }
}

/// What a routing table holds.
pub struct KtableView {
    /// The buckets; bucket `i` holds the peers that share exactly `i` leading
    /// bits with the owner.
    pub buckets: Seq<Seq<Entry>>,
    /// The capacity of each bucket.
    pub k: nat,
    /// The identifier of the peer that owns the table.
    pub owner: Id,
}

impl KtableView {
    /// The table of the peer `owner` with buckets of capacity `k`, all empty.
    pub open spec fn empty(k: nat, owner: Id) -> KtableView {
        KtableView { buckets: Seq::new(BUCKETS as nat, |i: int| Seq::<Entry>::empty()), k, owner }
    }

    /// The index of the bucket in which `id` belongs.
    pub open spec fn bucket_of(self, id: Id) -> int {
        self.owner.spec_common_bits(id)
    }

    /// Bucket `i` holds at most `k` entries, all of them with exactly `i`
    /// leading bits in common with the owner, in ascending distance from it.
    pub open spec fn bucket_ok(self, i: int) -> bool {
        &&& self.buckets[i].len() <= self.k
        &&& sorted_from(self.owner, self.buckets[i])
        &&& forall|j: int|
            0 <= j < self.buckets[i].len() ==> self.bucket_of((#[trigger] self.buckets[i][j]).id)
                == i
    }

    /// The table has its 64 buckets and each of them is in order.
    pub open spec fn wf(self) -> bool {
        &&& self.buckets.len() == BUCKETS
        &&& forall|i: int| 0 <= i < BUCKETS ==> self.bucket_ok(i)
    }

    /// All entries, bucket 0 first.
    pub open spec fn entries(self) -> Seq<Entry> {
        self.buckets.flatten()
    }

    /// Whether the table knows a peer with the identifier `id`.
    pub open spec fn knows(self, id: Id) -> bool {
        has_id(self.entries(), id)
    }

    /// The table with bucket `i` replaced by `b`.
    pub open spec fn with_bucket(self, i: int, b: Seq<Entry>) -> KtableView {
        KtableView { buckets: self.buckets.update(i, b), ..self }
    }

    /// The table after `e` was offered: `e` is put in its place in its bucket,
    /// unless it is the owner, is known already, or the bucket is full.
    pub open spec fn offer(self, e: Entry) -> KtableView {
        let i = self.bucket_of(e.id);
        let b = self.buckets[i];
        if e.id == self.owner || has_id(b, e.id) || b.len() >= self.k {
            self
        } else {
            self.with_bucket(i, b.insert(closer_count(self.owner, b, e.id) as int, e))
        }
    }

    /// The table after `e` was offered with replacement: as `offer`, but a
    /// full bucket takes `e` too and then gives up its farthest entry.
    pub open spec fn offer_replace(self, e: Entry) -> KtableView {
        let i = self.bucket_of(e.id);
        let b = self.buckets[i];
        if e.id == self.owner || has_id(b, e.id) {
            self
        } else {
            self.with_bucket(i, insert_bounded(self.owner, b, e, self.k))
        }
    }

    /// The table without the peer `id`.
    pub open spec fn delete_id(self, id: Id) -> KtableView {
        let i = self.bucket_of(id);
        if id == self.owner {
            self
        } else {
            self.with_bucket(i, without_id(self.buckets[i], id))
        }
    }

    /// The table with every bucket emptied.
    pub open spec fn cleared(self) -> KtableView {
        KtableView::empty(self.k, self.owner)
    }

    /// The first `n` entries in the order bucket 63, bucket 62, ..., bucket 0
    /// (all of them where the table holds fewer).
    pub open spec fn get(self, n: nat) -> Seq<Entry> {
        let all = self.buckets.reverse().flatten();
        if n <= all.len() {
            all.take(n as int)
        } else {
            all
        }
    }

    /// The `n` entries nearest to `target`, nearest first.
    pub open spec fn closest_to(self, n: nat, target: Id) -> Seq<Entry> {
        closest(target, self.entries(), n)
    }
}

/// 64 buckets of peers around an owner, each bucket sorted by distance from the
/// owner and holding at most `k` entries.
pub struct Ktable {
    table: Vec<Vec<Entry>>,
    k: u32,
    id: Id,
}

impl View for Ktable {
    type V = KtableView;

    closed spec fn view(&self) -> KtableView {
        KtableView {
            buckets: Seq::new(self.table@.len(), |i: int| self.table@[i]@),
            k: self.k as nat,
            owner: self.id,
        }
    }
}

impl Ktable {
    /// The invariant of the table: see `KtableView::wf`.
    pub open spec fn wf(&self) -> bool {
        self@.wf()
    }

    /// An empty table for the peer `me`, with buckets of capacity `k`.
    pub fn new(k: u32, me: Id) -> (t: Ktable)
        ensures
            t.wf(),
            t@ == KtableView::empty(k as nat, me),
            t@.entries().len() == 0,
    {
        let mut table: Vec<Vec<Entry>> = Vec::new();
        let mut i: usize = 0;
        while i < BUCKETS
            invariant
                i <= BUCKETS,
                table@.len() == i,
                forall|j: int| 0 <= j < i ==> (#[trigger] table@[j])@.len() == 0,
            decreases BUCKETS - i,
        {
            table.push(Vec::new());
            i += 1;
        }
        let t = Ktable { table, k, id: me };
        proof {
            assert(t@.buckets =~~= KtableView::empty(k as nat, me).buckets);
            assert forall|i: int| 0 <= i < BUCKETS implies t@.bucket_ok(i) by {
                assert(t@.buckets[i].len() == 0);
            }
            lemma_empty_table(t@);
        }
        t
    }

    /// The capacity of each bucket.
    pub fn capacity(&self) -> (k: u32)
        ensures
            k == self@.k,
    {
        self.k
    }

    /// The identifier of the owner.
    pub fn owner(&self) -> (id: Id)
        ensures
            id == self@.owner,
    {
        self.id
    }

    /// Finds the bucket of `id`, the place of `id` in it, and whether `id` is
    /// there.
    fn index_from_id(&self, id: Id) -> (r: (usize, usize, bool))
        requires
            self.wf(),
            id != self@.owner,
        ensures
            r.0 < BUCKETS,
            r.0 == self@.bucket_of(id),
            r.1 <= self@.buckets[r.0 as int].len(),
            r.1 == closer_count(self@.owner, self@.buckets[r.0 as int], id),
            r.2 == has_id(self@.buckets[r.0 as int], id),
            r.2 ==> r.1 < self@.buckets[r.0 as int].len() && self@.buckets[r.0 as int][r.1 as int].id
                == id,
    {
        proof {
            lemma_common_bits_range(self.id, id);
        }
        let v1_index: usize = self.id.common_bits(&id) as usize;
        let dist_id = self.id.distance(&id);
        let ghost b = self@.buckets[v1_index as int];
        assert(self@.bucket_ok(v1_index as int));
        let bucket = &self.table[v1_index];
        assert(bucket@ == b);
        let mut v2_index: usize = 0;
        let mut found = false;
        let mut stop = false;
        while v2_index < bucket.len() && !stop
            invariant
                bucket@ == b,
                dist_id == self.id.spec_distance(id),
                v2_index <= b.len(),
                forall|j: int| 0 <= j < v2_index ==> dist_to(self.id, #[trigger] b[j]) < dist_id,
                stop ==> v2_index < b.len() && dist_to(self.id, b[v2_index as int]) >= dist_id,
                stop ==> found == (dist_to(self.id, b[v2_index as int]) == dist_id),
                !stop ==> !found,
            decreases b.len() - v2_index + if stop { 0int } else { 1int },
        {
            let dist_entry = self.id.distance(&bucket[v2_index].id);
            if dist_id > dist_entry {
                v2_index += 1;
            } else {
                found = dist_id == dist_entry;
                stop = true;
            }
        }
        proof {
            let p = v2_index as int;
            assert forall|j: int| p <= j < b.len() implies dist_to(self.id, #[trigger] b[j])
                >= dist_id by {
                if j > p {
                    assert(dist_to(self.id, b[p]) < dist_to(self.id, b[j]));
                }
            }
            lemma_closer_count_at(self.id, b, id, p);
            if found {
                lemma_distance_injective(self.id, b[p].id, id);
            } else if has_id(b, id) {
                let m = choose|m: int| 0 <= m < b.len() && (#[trigger] b[m]).id == id;
                if m < p {
                    assert(dist_to(self.id, b[m]) < dist_id);
                } else {
                    assert(dist_to(self.id, b[m]) >= dist_id);
                    if m > p {
                        assert(dist_to(self.id, b[p]) < dist_to(self.id, b[m]));
                    }
                }
            }
        }
        (v1_index, v2_index, found)
    }

    /// Offers a peer to the table. It is taken where it is not the owner, is not
    /// known yet, and its bucket has room; it then stands in its bucket in
    /// order of distance from the owner.
    pub fn offer(&mut self, offer: Entry)
        requires
            old(self).wf(),
        ensures
            final(self).wf(),
            final(self)@ == old(self)@.offer(offer),
    {
        if offer.id == self.id {
            return ;
        }
        let (v1_index, v2_index, found) = self.index_from_id(offer.id);
        if !found {
            if self.table[v1_index].len() < self.k as usize {
                proof {
                    assert(self@.bucket_ok(v1_index as int));
                    lemma_insert_sorted(self.id, self@.buckets[v1_index as int], offer);
                }
                self.table[v1_index].insert(v2_index, offer);
                proof {
                    let i = v1_index as int;
                    let b = old(self)@.buckets[i];
                    let nb = b.insert(v2_index as int, offer);
                    assert(self@.buckets =~= old(self)@.buckets.update(i, nb));
                    lemma_insert_same_bucket(old(self)@, i, b, v2_index as int, offer);
                    lemma_with_bucket_wf(old(self)@, i, nb);
                }
            }
        }
    }

    /// Offers a peer to the table, making room for it: as `offer`, but where the
    /// bucket is full the peer is put in and the farthest entry of the bucket
    /// leaves.
    pub fn offer_replace(&mut self, offer: Entry)
        requires
            old(self).wf(),
        ensures
            final(self).wf(),
            final(self)@ == old(self)@.offer_replace(offer),
    {
        if offer.id == self.id {
            return ;
        }
        let (v1_index, v2_index, found) = self.index_from_id(offer.id);
        if !found {
            proof {
                assert(self@.bucket_ok(v1_index as int));
                lemma_insert_sorted(self.id, self@.buckets[v1_index as int], offer);
            }
            self.table[v1_index].insert(v2_index, offer);
            if self.table[v1_index].len() > self.k as usize {
                self.table[v1_index].pop();
            }
            proof {
                let i = v1_index as int;
                let b = old(self)@.buckets[i];
                let nb = insert_bounded(self.id, b, offer, self.k as nat);
                let g = b.insert(v2_index as int, offer);
                assert(g.drop_last() =~= g.subrange(0, g.len() - 1));
                assert(self@.buckets =~= old(self)@.buckets.update(i, nb));
                lemma_insert_same_bucket(old(self)@, i, b, v2_index as int, offer);
                assert(forall|j: int| 0 <= j < nb.len() ==> nb[j] == g[j]);
                assert(sorted_from(self.id, nb)) by {
                    assert forall|x: int, y: int|
                        #![trigger nb[x], nb[y]]
                        0 <= x < y < nb.len() implies dist_to(self.id, nb[x]) < dist_to(
                        self.id,
                        nb[y],
                    ) by {
                        assert(dist_to(self.id, g[x]) < dist_to(self.id, g[y]));
                    }
                }
                lemma_with_bucket_wf(old(self)@, i, nb);
            }
        }
    }

    /// Removes the peer with the identifier `id`, if the table knows it.
    pub fn delete_id(&mut self, id: Id)
        requires
            old(self).wf(),
        ensures
            final(self).wf(),
            final(self)@ == old(self)@.delete_id(id),
    {
        if id == self.id {
            return ;
        }
        let (v1_index, v2_index, found) = self.index_from_id(id);
        let ghost i = v1_index as int;
        let ghost b = self@.buckets[i];
        proof {
            assert(old(self)@.bucket_ok(i));
            lemma_sorted_distinct(self.id, b);
        }
        if found {
            self.table[v1_index].remove(v2_index);
            proof {
                lemma_without_id_removes(b, id, v2_index as int);
            }
        } else {
            proof {
                lemma_without_id_absent(b, id);
            }
        }
        proof {
            let nb = without_id(b, id);
            assert(self@.buckets =~= old(self)@.buckets.update(i, nb));
            if found {
                let p = v2_index as int;
                assert(forall|j: int| 0 <= j < p ==> nb[j] == b[j]);
                assert(forall|j: int| p <= j < nb.len() ==> nb[j] == b[j + 1]);
                assert forall|x: int, y: int|
                    #![trigger nb[x], nb[y]]
                    0 <= x < y < nb.len() implies dist_to(self.id, nb[x]) < dist_to(
                    self.id,
                    nb[y],
                ) by {
                    let x0 = if x < p { x } else { x + 1 };
                    let y0 = if y < p { y } else { y + 1 };
                    assert(dist_to(self.id, b[x0]) < dist_to(self.id, b[y0]));
                }
                assert forall|j: int| 0 <= j < nb.len() implies old(self)@.bucket_of(
                    (#[trigger] nb[j]).id,
                ) == i by {
                    let j0 = if j < p { j } else { j + 1 };
                    assert(nb[j] == b[j0]);
                }
            }
            lemma_with_bucket_wf(old(self)@, i, nb);
        }
    }

    /// Removes the peer that `entry` names, if the table knows it.
    pub fn delete_entry(&mut self, entry: Entry)
        requires
            old(self).wf(),
        ensures
            final(self).wf(),
            final(self)@ == old(self)@.delete_id(entry.id),
    {
        self.delete_id(entry.id);
    }

    /// Forgets every peer.
    pub fn clear(&mut self)
        requires
            old(self).wf(),
        ensures
            final(self).wf(),
            final(self)@ == old(self)@.cleared(),
    {
        let mut i: usize = 0;
        while i < BUCKETS
            invariant
                i <= BUCKETS,
                self.table@.len() == BUCKETS,
                self.k == old(self).k,
                self.id == old(self).id,
                forall|j: int| 0 <= j < i ==> (#[trigger] self.table@[j])@.len() == 0,
            decreases BUCKETS - i,
        {
            self.table[i].clear();
            i += 1;
        }
        assert(self@.buckets =~~= old(self)@.cleared().buckets);
        assert forall|m: int| 0 <= m < BUCKETS implies self@.bucket_ok(m) by {
            assert(self@.buckets[m].len() == 0);
        }
    }
}

/// Putting an entry of bucket `i` into a list of entries of bucket `i` gives
/// a list of entries of bucket `i`.
pub proof fn lemma_insert_same_bucket(v: KtableView, i: int, b: Seq<Entry>, p: int, e: Entry)
    requires
        0 <= p <= b.len(),
        v.bucket_of(e.id) == i,
        forall|j: int| 0 <= j < b.len() ==> v.bucket_of((#[trigger] b[j]).id) == i,
    ensures
        forall|j: int|
            0 <= j < b.insert(p, e).len() ==> v.bucket_of((#[trigger] b.insert(p, e)[j]).id) == i,
{
    let g = b.insert(p, e);
    assert forall|j: int| 0 <= j < g.len() implies v.bucket_of((#[trigger] g[j]).id) == i by {
        if j < p {
            assert(g[j] == b[j]);
        } else if j > p {
            assert(g[j] == b[j - 1]);
        }
    }
}

/// Replacing a bucket by a list that is in order for that bucket keeps the
/// table in order.
pub proof fn lemma_with_bucket_wf(v: KtableView, i: int, b: Seq<Entry>)
    requires
        v.wf(),
        0 <= i < BUCKETS,
        b.len() <= v.k,
        sorted_from(v.owner, b),
        forall|j: int| 0 <= j < b.len() ==> v.bucket_of((#[trigger] b[j]).id) == i,
    ensures
        v.with_bucket(i, b).wf(),
{
    let w = v.with_bucket(i, b);
    assert forall|m: int| 0 <= m < BUCKETS implies w.bucket_ok(m) by {
        assert(v.bucket_ok(m));
        if m != i {
            assert(w.buckets[m] == v.buckets[m]);
        }
    }
}

/// The first `m + 1` lists, flattened, are the first `m` lists, flattened,
/// followed by list `m`.
pub proof fn lemma_flatten_take_step<A>(bs: Seq<Seq<A>>, m: int)
    requires
        0 <= m < bs.len(),
    ensures
        bs.take(m + 1).flatten() == bs.take(m).flatten() + bs[m],
{
    let a = bs.take(m + 1);
    a.lemma_flatten_and_flatten_alt_are_equivalent();
    bs.take(m).lemma_flatten_and_flatten_alt_are_equivalent();
    assert(a.drop_last() =~= bs.take(m));
    assert(a.last() == bs[m]);
}

/// The first `m` lists, flattened, are where the first `k >= m` lists,
/// flattened, begin.
pub proof fn lemma_flatten_take_prefix<A>(bs: Seq<Seq<A>>, m: int, k: int)
    requires
        0 <= m <= k <= bs.len(),
    ensures
        bs.take(m).flatten().is_prefix_of(bs.take(k).flatten()),
    decreases k - m,
{
    if m < k {
        lemma_flatten_take_prefix(bs, m, k - 1);
        lemma_flatten_take_step(bs, k - 1);
    }
}

/// The first `m` lists and the first `j` entries of list `m`, in one list.
pub open spec fn scanned<A>(bs: Seq<Seq<A>>, m: int, j: int) -> Seq<A> {
    bs.take(m).flatten() + bs[m].take(j)
}

/// What has been scanned is where the whole, flattened, begins.
pub proof fn lemma_scanned_prefix<A>(bs: Seq<Seq<A>>, m: int, j: int)
    requires
        0 <= m < bs.len(),
        0 <= j <= bs[m].len(),
    ensures
        scanned(bs, m, j).is_prefix_of(bs.flatten()),
        scanned(bs, m, 0) == bs.take(m).flatten(),
        scanned(bs, m, bs[m].len() as int) == bs.take(m + 1).flatten(),
        j < bs[m].len() ==> scanned(bs, m, j + 1) == scanned(bs, m, j).push(bs[m][j]),
{
    lemma_flatten_take_step(bs, m);
    lemma_flatten_take_prefix(bs, m + 1, bs.len() as int);
    assert(bs.take(bs.len() as int) =~= bs);
    assert(bs[m].take(bs[m].len() as int) =~= bs[m]);
    assert(scanned(bs, m, 0) =~= bs.take(m).flatten());
    if j < bs[m].len() {
        assert(scanned(bs, m, j + 1) =~= scanned(bs, m, j).push(bs[m][j]));
    }
}

/// Every entry of the first `k` lists, flattened, is an entry of one of them.
pub proof fn lemma_flatten_take_member<A>(bs: Seq<Seq<A>>, k: int, q: int)
    requires
        0 <= k <= bs.len(),
        0 <= q < bs.take(k).flatten().len(),
    ensures
        exists|m: int, j: int|
            0 <= m < k && 0 <= j < bs[m].len() && #[trigger] bs[m][j] == bs.take(k).flatten()[q],
    decreases k,
{
    if k == 0 {
        assert(bs.take(0).flatten() =~= Seq::<A>::empty());
    } else {
        lemma_flatten_take_step(bs, k - 1);
        let a = bs.take(k - 1).flatten();
        if q < a.len() {
            lemma_flatten_take_member(bs, k - 1, q);
            let (m, j) = choose|m: int, j: int|
                0 <= m < k - 1 && 0 <= j < bs[m].len() && #[trigger] bs[m][j] == a[q];
            assert(bs[m][j] == bs.take(k).flatten()[q]);
        } else {
            assert(bs[k - 1][q - a.len()] == bs.take(k).flatten()[q]);
        }
    }
}

/// Every entry of the table is an entry of one of its buckets.
pub proof fn lemma_entry_in_bucket(v: KtableView, q: int)
    requires
        0 <= q < v.entries().len(),
    ensures
        exists|m: int, j: int|
            0 <= m < v.buckets.len() && 0 <= j < v.buckets[m].len() && #[trigger] v.buckets[m][j]
                == v.entries()[q],
{
    assert(v.buckets.take(v.buckets.len() as int) =~= v.buckets);
    lemma_flatten_take_member(v.buckets, v.buckets.len() as int, q);
}

/// Every entry of a bucket is an entry of the table.
pub proof fn lemma_entry_of_bucket(v: KtableView, m: int, j: int)
    requires
        0 <= m < v.buckets.len(),
        0 <= j < v.buckets[m].len(),
    ensures
        v.entries().contains(v.buckets[m][j]),
{
    lemma_scanned_prefix(v.buckets, m, j + 1);
    let s = scanned(v.buckets, m, j + 1);
    assert(s[s.len() - 1] == v.buckets[m][j]);
    assert(v.entries()[s.len() - 1] == v.buckets[m][j]);
}

/// The entries of the first `m` buckets of a table in order have distinct
/// identifiers, and each belongs in one of those buckets.
pub proof fn lemma_prefix_distinct(v: KtableView, m: int)
    requires
        v.wf(),
        0 <= m <= BUCKETS,
    ensures
        distinct_ids(v.buckets.take(m).flatten()),
        forall|q: int|
            0 <= q < v.buckets.take(m).flatten().len() ==> 0 <= v.bucket_of(
                (#[trigger] v.buckets.take(m).flatten()[q]).id,
            ) < m,
    decreases m,
{
    if m > 0 {
        lemma_prefix_distinct(v, m - 1);
        lemma_flatten_take_step(v.buckets, m - 1);
        let a = v.buckets.take(m - 1).flatten();
        let b = v.buckets[m - 1];
        let f = v.buckets.take(m).flatten();
        assert(v.bucket_ok(m - 1));
        lemma_sorted_distinct(v.owner, b);
        assert(forall|q: int| 0 <= q < a.len() ==> f[q] == a[q]);
        assert(forall|q: int| a.len() <= q < f.len() ==> f[q] == b[q - a.len()]);
        assert forall|q: int| 0 <= q < f.len() implies 0 <= v.bucket_of((#[trigger] f[q]).id)
            < m by {
            if q < a.len() {
                assert(f[q] == a[q]);
            } else {
                assert(f[q] == b[q - a.len()]);
            }
        }
        assert forall|i: int, j: int| #![trigger f[i], f[j]] 0 <= i < j < f.len() implies f[i].id
            != f[j].id by {
            if j < a.len() {
                assert(a[i].id != a[j].id);
            } else if i < a.len() {
                assert(v.bucket_of(a[i].id) < m - 1);
                assert(v.bucket_of(b[j - a.len()].id) == m - 1);
            } else {
                assert(b[i - a.len()].id != b[j - a.len()].id);
            }
        }
    }
}

/// A table in order knows no identifier twice, and does not know its owner.
pub proof fn lemma_entries_distinct(v: KtableView)
    requires
        v.wf(),
    ensures
        distinct_ids(v.entries()),
        !v.knows(v.owner),
{
    lemma_prefix_distinct(v, BUCKETS as int);
    assert(v.buckets.take(BUCKETS as int) =~= v.buckets);
    if v.knows(v.owner) {
        let q = choose|q: int| 0 <= q < v.entries().len() && (#[trigger] v.entries()[q]).id == v.owner;
        lemma_common_bits_range(v.owner, v.owner);
        assert(v.bucket_of(v.entries()[q].id) < BUCKETS);
    }
}

/// A list that begins a list of distinct identifiers has distinct identifiers.
pub proof fn lemma_prefix_of_distinct(s: Seq<Entry>, whole: Seq<Entry>)
    requires
        s.is_prefix_of(whole),
        distinct_ids(whole),
    ensures
        distinct_ids(s),
{
    assert forall|i: int, j: int| #![trigger s[i], s[j]] 0 <= i < j < s.len() implies s[i].id
        != s[j].id by {
        assert(s[i] == whole[i]);
        assert(s[j] == whole[j]);
    }
}

impl Ktable {
    /// The place that `id` would take in `v`, a list sorted from `center`: the
    /// number of entries that are closer to `center`.
    fn rank_in(v: &Vec<Entry>, center: Id, id: Id) -> (p: usize)
        requires
            sorted_from(center, v@),
        ensures
            p <= v@.len(),
            p == closer_count(center, v@, id),
    {
        let d = center.distance(&id);
        let mut p: usize = 0;
        let mut stop = false;
        while p < v.len() && !stop
            invariant
                p <= v@.len(),
                d == center.spec_distance(id),
                forall|j: int| 0 <= j < p ==> dist_to(center, #[trigger] v@[j]) < d,
                stop ==> p < v@.len() && dist_to(center, v@[p as int]) >= d,
            decreases v@.len() - p + if stop { 0int } else { 1int },
        {
            if d > center.distance(&v[p].id) {
                p += 1;
            } else {
                stop = true;
            }
        }
        proof {
            assert forall|j: int| p <= j < v@.len() implies dist_to(center, #[trigger] v@[j])
                >= d by {
                if j > p {
                    assert(dist_to(center, v@[p as int]) < dist_to(center, v@[j]));
                }
            }
            lemma_closer_count_at(center, v@, id, p as int);
        }
        p
    }

    /// Up to `n` entries, taken from bucket 63 down to bucket 0: the peers that
    /// share the most leading bits with the owner come first.
    pub fn get(&self, n: u32) -> (result: Vec<Entry>)
        requires
            self.wf(),
        ensures
            result@ == self@.get(n as nat),
    {
        let mut result: Vec<Entry> = Vec::new();
        let ghost rs = self@.buckets.reverse();
        let ghost all = rs.flatten();
        let mut i: usize = BUCKETS;
        assert(rs.take(0).flatten() =~= Seq::<Entry>::empty());
        while i > 0
            invariant
                self.wf(),
                rs == self@.buckets.reverse(),
                all == rs.flatten(),
                i <= BUCKETS,
                result@.len() <= n,
                result@.is_prefix_of(all),
                result@.len() < n ==> result@ == rs.take(BUCKETS - i).flatten(),
            decreases i,
        {
            i -= 1;
            let ghost m = BUCKETS - 1 - i;
            let bucket = &self.table[i];
            assert(bucket@ == rs[m]);
            let mut j: usize = 0;
            proof {
                lemma_scanned_prefix(rs, m, 0);
            }
            while j < bucket.len() && result.len() < n as usize
                invariant
                    bucket@ == rs[m],
                    all == rs.flatten(),
                    0 <= m < rs.len(),
                    j <= bucket@.len(),
                    result@.len() <= n,
                    result@.is_prefix_of(all),
                    result@.len() < n ==> result@ == scanned(rs, m, j as int),
                decreases bucket@.len() - j,
            {
                proof {
                    lemma_scanned_prefix(rs, m, j as int);
                    lemma_scanned_prefix(rs, m, j + 1);
                }
                result.push(bucket[j]);
                j += 1;
            }
            proof {
                lemma_scanned_prefix(rs, m, j as int);
            }
        }
        proof {
            assert(rs.take(BUCKETS as int) =~= rs);
            if result@.len() < n {
                assert(result@ == all);
            } else {
                assert(result@ =~= all.take(n as int));
            }
        }
        result
    }

    /// The `n` peers nearest to `other` in the XOR metric, nearest first; all
    /// peers, where the table knows fewer.
    pub fn closest_to(&self, n: u32, other: Id) -> (result: Vec<Entry>)
        requires
            self.wf(),
        ensures
            result@ == self@.closest_to(n as nat, other),
            is_closest(other, self@.entries(), n as nat, result@),
    {
        let mut result: Vec<Entry> = Vec::new();
        let ghost bs = self@.buckets;
        let mut i: usize = 0;
        proof {
            lemma_entries_distinct(self@);
            assert(bs.take(0).flatten() =~= Seq::<Entry>::empty());
        }
        while i < BUCKETS
            invariant
                self.wf(),
                bs == self@.buckets,
                distinct_ids(bs.flatten()),
                i <= BUCKETS,
                result@ == closest(other, bs.take(i as int).flatten(), n as nat),
            decreases BUCKETS - i,
        {
            let bucket = &self.table[i];
            let mut j: usize = 0;
            proof {
                lemma_scanned_prefix(bs, i as int, 0);
            }
            while j < bucket.len()
                invariant
                    bucket@ == bs[i as int],
                    distinct_ids(bs.flatten()),
                    i < bs.len(),
                    j <= bucket@.len(),
                    result@ == closest(other, scanned(bs, i as int, j as int), n as nat),
                decreases bucket@.len() - j,
            {
                let e = bucket[j];
                let ghost seen = scanned(bs, i as int, j as int);
                let ghost next = scanned(bs, i as int, j + 1);
                proof {
                    lemma_scanned_prefix(bs, i as int, j as int);
                    lemma_scanned_prefix(bs, i as int, j + 1);
                    lemma_prefix_of_distinct(seen, bs.flatten());
                    lemma_prefix_of_distinct(next, bs.flatten());
                    lemma_closest_is_closest(other, seen, n as nat);
                    assert(next.drop_last() =~= seen);
                    assert(next.last() == e);
                }
                let index = Self::rank_in(&result, other, e.id);
                result.insert(index, e);
                if result.len() > n as usize {
                    result.pop();
                }
                proof {
                    let g = closest(other, seen, n as nat).insert(index as int, e);
                    assert(g.drop_last() =~= g.subrange(0, g.len() - 1));
                }
                j += 1;
            }
            proof {
                lemma_scanned_prefix(bs, i as int, j as int);
            }
            i += 1;
        }
        proof {
            assert(bs.take(BUCKETS as int) =~= bs);
            lemma_closest_is_closest(other, self@.entries(), n as nat);
        }
        result
    }

    /// The number of peers in the first `upto` buckets.
    fn count_before(&self, upto: usize) -> (total: u64)
        requires
            self.wf(),
            upto <= BUCKETS,
        ensures
            total == self@.buckets.take(upto as int).flatten().len(),
            total <= upto * 0xffff_ffff,
    {
        let mut total: u64 = 0;
        let mut i: usize = 0;
        assert(self@.buckets.take(0).flatten() =~= Seq::<Entry>::empty());
        while i < upto
            invariant
                self.wf(),
                i <= upto <= BUCKETS,
                total == self@.buckets.take(i as int).flatten().len(),
                total <= i * 0xffff_ffff,
            decreases upto - i,
        {
            proof {
                lemma_flatten_take_step(self@.buckets, i as int);
                assert(self@.bucket_ok(i as int));
            }
            total = total + self.table[i].len() as u64;
            i += 1;
        }
        total
    }

    /// The number of peers that the table knows.
    pub fn len(&self) -> (total: u64)
        requires
            self.wf(),
        ensures
            total == self@.entries().len(),
    {
        proof {
            assert(self@.buckets.take(BUCKETS as int) =~= self@.buckets);
        }
        self.count_before(BUCKETS)
    }

    /// The bucket that holds the `num`-th peer, counting from 1 through the
    /// buckets in ascending order: a bucket is chosen with a weight equal to
    /// its length when `num` is drawn uniformly.
    pub fn weighted_bucket(&self, num: u64) -> (i: usize)
        requires
            self.wf(),
            1 <= num <= self@.entries().len(),
        ensures
            i < BUCKETS,
            self@.buckets.take(i as int).flatten().len() < num,
            num <= self@.buckets.take(i + 1).flatten().len(),
            self@.buckets[i as int].len() > 0,
    {
        let mut left: u64 = num;
        let mut i: usize = 0;
        let ghost bs = self@.buckets;
        assert(bs.take(0).flatten() =~= Seq::<Entry>::empty());
        assert(bs.take(BUCKETS as int) =~= bs);
        while i < BUCKETS - 1 && left > self.table[i].len() as u64
            invariant
                self.wf(),
                bs == self@.buckets,
                i < BUCKETS,
                1 <= left <= num,
                num <= bs.flatten().len(),
                num - left == bs.take(i as int).flatten().len(),
            decreases BUCKETS - i,
        {
            proof {
                lemma_flatten_take_step(bs, i as int);
            }
            left = left - self.table[i].len() as u64;
            i += 1;
        }
        proof {
            lemma_flatten_take_step(bs, i as int);
            if i == BUCKETS - 1 {
                assert(bs.take(i + 1) =~= bs);
            }
        }
        i
    }

    /// A peer drawn at random, every known peer with the same chance; `None`
    /// where the table is empty.
    pub fn random(&self) -> (r: Option<Entry>)
        requires
            self.wf(),
        ensures
            r is None <==> self@.entries().len() == 0,
            r matches Some(e) ==> self@.entries().contains(e),
    {
        let total = self.len();
        if total == 0 {
            return None;
        }
        let num = random_below(total) + 1;
        let v1_selection = self.weighted_bucket(num);
        let v2_selection = random_below(self.table[v1_selection].len() as u64) as usize;
        proof {
            lemma_entry_of_bucket(self@, v1_selection as int, v2_selection as int);
        }
        Some(self.table[v1_selection][v2_selection])
    }
}

/// A table whose buckets are all empty has no entry.
pub proof fn lemma_empty_table(v: KtableView)
    requires
        forall|i: int| 0 <= i < v.buckets.len() ==> (#[trigger] v.buckets[i]).len() == 0,
    ensures
        v.entries().len() == 0,
{
    if v.entries().len() > 0 {
        lemma_entry_in_bucket(v, 0);
    }
}

} // verus!
