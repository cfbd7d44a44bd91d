//! What holds of a routing table in every state, and after any run of offers.

use vstd::prelude::*;
use crate::common::id::Id;
use crate::common::id::lemma_common_bits_range;
use crate::common::id::lemma_longer_prefix_is_nearer;
use crate::node::ktable::{
    closer_count, closest, dist_to, distinct_ids, has_id, insert_bounded, is_closest,
    lemma_closer_count_bound,
    lemma_closer_count_at, lemma_closest_is_closest, lemma_entries_distinct, lemma_entry_in_bucket,
    lemma_entry_of_bucket, lemma_flatten_take_step,
    lemma_insert_same_bucket, lemma_insert_sorted, lemma_sorted_distinct,
    lemma_with_bucket_wf, lemma_without_id_absent, lemma_without_id_removes, sorted_from,
    without_id, Entry, KtableView, BUCKETS,
};

verus! {

/// Offering the owner to its own table changes nothing.
pub proof fn lemma_offer_owner_unchanged(v: KtableView, e: Entry)
    requires
        e.id == v.owner,
    ensures
        v.offer(e) == v,
        v.offer_replace(e) == v,
{
}

/// An offer keeps the table in order: every bucket `i` still holds only peers
/// that share exactly `i` leading bits with the owner, in ascending distance
/// from it, and no more than `k` of them.
pub proof fn lemma_offer_wf(v: KtableView, e: Entry)
    requires
        v.wf(),
    ensures
        v.offer(e).wf(),
{
    let i = v.bucket_of(e.id);
    let b = v.buckets[i];
    lemma_common_bits_range(v.owner, e.id);
    if !(e.id == v.owner || has_id(b, e.id) || b.len() >= v.k) {
        assert(v.bucket_ok(i));
        lemma_insert_sorted(v.owner, b, e);
        let p = closer_count(v.owner, b, e.id) as int;
        lemma_insert_same_bucket(v, i, b, p, e);
        lemma_with_bucket_wf(v, i, b.insert(p, e));
    }
}

/// Bounded insertion of a new identifier into a sorted list of entries of one
/// bucket gives a sorted list of entries of that bucket, of at most `cap`
/// entries where `cap` is not zero or the list was within it.
pub proof fn lemma_insert_bounded_ok(v: KtableView, i: int, b: Seq<Entry>, e: Entry)
    requires
        sorted_from(v.owner, b),
        !has_id(b, e.id),
        b.len() <= v.k,
        v.bucket_of(e.id) == i,
        forall|j: int| 0 <= j < b.len() ==> v.bucket_of((#[trigger] b[j]).id) == i,
    ensures
        sorted_from(v.owner, insert_bounded(v.owner, b, e, v.k)),
        insert_bounded(v.owner, b, e, v.k).len() <= v.k,
        forall|j: int|
            0 <= j < insert_bounded(v.owner, b, e, v.k).len() ==> v.bucket_of(
                (#[trigger] insert_bounded(v.owner, b, e, v.k)[j]).id,
            ) == i,
{
    lemma_insert_sorted(v.owner, b, e);
    let p = closer_count(v.owner, b, e.id) as int;
    let g = b.insert(p, e);
    let nb = insert_bounded(v.owner, b, e, v.k);
    lemma_insert_same_bucket(v, i, b, p, e);
    assert(forall|j: int| 0 <= j < nb.len() ==> nb[j] == g[j]);
    assert forall|x: int, y: int| #![trigger nb[x], nb[y]] 0 <= x < y < nb.len() implies dist_to(
        v.owner,
        nb[x],
    ) < dist_to(v.owner, nb[y]) by {
        assert(dist_to(v.owner, g[x]) < dist_to(v.owner, g[y]));
    }
}

/// An offer with replacement keeps the table in order.
pub proof fn lemma_offer_replace_wf(v: KtableView, e: Entry)
    requires
        v.wf(),
    ensures
        v.offer_replace(e).wf(),
{
    let i = v.bucket_of(e.id);
    let b = v.buckets[i];
    lemma_common_bits_range(v.owner, e.id);
    if !(e.id == v.owner || has_id(b, e.id)) {
        assert(v.bucket_ok(i));
        lemma_insert_bounded_ok(v, i, b, e);
        lemma_with_bucket_wf(v, i, insert_bounded(v.owner, b, e, v.k));
    }
}

/// A removal keeps the table in order, and the removed peer is not known
/// afterwards.
pub proof fn lemma_delete_id_wf(v: KtableView, id: Id)
    requires
        v.wf(),
    ensures
        v.delete_id(id).wf(),
        !v.delete_id(id).knows(id),
{
    let w = v.delete_id(id);
    assert(!w.knows(id)) by {
        lemma_delete_id_bucket(v, id);
        lemma_entries_distinct(w);
        if w.knows(id) {
            let q = choose|q: int| 0 <= q < w.entries().len() && (#[trigger] w.entries()[q]).id == id;
            lemma_entry_in_bucket(w, q);
            let (m, j) = choose|m: int, j: int|
                0 <= m < w.buckets.len() && 0 <= j < w.buckets[m].len() && #[trigger] w.buckets[m][j]
                    == w.entries()[q];
            assert(w.bucket_ok(m));
            assert(w.bucket_of(w.buckets[m][j].id) == m);
        }
    }
    lemma_delete_id_bucket(v, id);
}

/// A removal keeps the table in order, and the bucket of the removed peer does
/// not hold it afterwards.
pub proof fn lemma_delete_id_bucket(v: KtableView, id: Id)
    requires
        v.wf(),
    ensures
        v.delete_id(id).wf(),
        id != v.owner ==> !has_id(v.delete_id(id).buckets[v.bucket_of(id)], id),
{
    let i = v.bucket_of(id);
    lemma_common_bits_range(v.owner, id);
    if id != v.owner {
        let b = v.buckets[i];
        assert(v.bucket_ok(i));
        lemma_sorted_distinct(v.owner, b);
        let nb = without_id(b, id);
        if has_id(b, id) {
            let p = choose|p: int| 0 <= p < b.len() && (#[trigger] b[p]).id == id;
            lemma_without_id_removes(b, id, p);
            assert(forall|j: int| 0 <= j < p ==> nb[j] == b[j]);
            assert(forall|j: int| p <= j < nb.len() ==> nb[j] == b[j + 1]);
            assert forall|x: int, y: int|
                #![trigger nb[x], nb[y]]
                0 <= x < y < nb.len() implies dist_to(v.owner, nb[x]) < dist_to(v.owner, nb[y]) by {
                let x0 = if x < p { x } else { x + 1 };
                let y0 = if y < p { y } else { y + 1 };
                assert(dist_to(v.owner, b[x0]) < dist_to(v.owner, b[y0]));
            }
            assert forall|j: int| 0 <= j < nb.len() implies v.bucket_of((#[trigger] nb[j]).id)
                == i by {
                let j0 = if j < p { j } else { j + 1 };
                assert(nb[j] == b[j0]);
            }
            if has_id(nb, id) {
                let q = choose|q: int| 0 <= q < nb.len() && (#[trigger] nb[q]).id == id;
                let q0 = if q < p { q } else { q + 1 };
                assert(nb[q] == b[q0]);
                if q0 < p {
                    assert(b[q0].id != b[p].id);
                } else {
                    assert(b[p].id != b[q0].id);
                }
            }
        } else {
            lemma_without_id_absent(b, id);
        }
        lemma_with_bucket_wf(v, i, nb);
    }
}

/// The nearest entries come out sorted by distance from the target, and there
/// are no more of them than were asked for, nor than the table holds.
pub proof fn lemma_closest_to_sorted(v: KtableView, n: nat, target: Id)
    requires
        v.wf(),
    ensures
        sorted_from(target, v.closest_to(n, target)),
        v.closest_to(n, target).len() <= n,
        v.closest_to(n, target).len() <= v.entries().len(),
        is_closest(target, v.entries(), n, v.closest_to(n, target)),
{
    lemma_entries_distinct(v);
    lemma_closest_is_closest(target, v.entries(), n);
}

/// The table after the entries of `es` were offered to it, one after another.
pub open spec fn offer_all(v: KtableView, es: Seq<Entry>) -> KtableView
    decreases es.len(),
{
    if es.len() == 0 {
        v
    } else {
        offer_all(v, es.drop_last()).offer(es.last())
    }
}

/// The table after the entries of `es` were offered to it with replacement, one
/// after another.
pub open spec fn offer_replace_all(v: KtableView, es: Seq<Entry>) -> KtableView
    decreases es.len(),
{
    if es.len() == 0 {
        v
    } else {
        offer_replace_all(v, es.drop_last()).offer_replace(es.last())
    }
}

/// The first `k` entries of `es`, or all of them where there are fewer.
pub open spec fn leading(es: Seq<Entry>, k: nat) -> Seq<Entry> {
    if k <= es.len() {
        es.take(k as int)
    } else {
        es
    }
}

/// Whether all entries of `es` belong in bucket `i` of `v` and no two of them
/// share an identifier.
pub open spec fn one_bucket(v: KtableView, es: Seq<Entry>, i: int) -> bool {
    &&& 0 <= i < BUCKETS
    &&& distinct_ids(es)
    &&& forall|j: int| 0 <= j < es.len() ==> v.bucket_of((#[trigger] es[j]).id) == i
}

/// An identifier that is none of those of `es` is none of those that
/// `closest` keeps of `es`.
pub proof fn lemma_closest_lacks(center: Id, es: Seq<Entry>, n: nat, id: Id)
    requires
        distinct_ids(es),
        !has_id(es, id),
    ensures
        !has_id(closest(center, es, n), id),
{
    lemma_closest_is_closest(center, es, n);
    let r = closest(center, es, n);
    if has_id(r, id) {
        let x = choose|x: int| 0 <= x < r.len() && (#[trigger] r[x]).id == id;
        assert(es.contains(r[x]));
        let m = choose|m: int| 0 <= m < es.len() && es[m] == r[x];
        assert(es[m].id == id);
    }
}

/// After offers with replacement of distinct peers of one bucket, which was
/// empty before, that bucket holds the `k` of them that are nearest to the
/// owner (all of them where there are fewer), nearest first.
pub proof fn lemma_bucket_capacity_replace(v: KtableView, es: Seq<Entry>, i: int)
    requires
        v.wf(),
        one_bucket(v, es, i),
        v.buckets[i].len() == 0,
    ensures
        offer_replace_all(v, es).wf(),
        offer_replace_all(v, es).k == v.k,
        offer_replace_all(v, es).owner == v.owner,
        offer_replace_all(v, es).buckets[i] == closest(v.owner, es, v.k),
        is_closest(v.owner, es, v.k, offer_replace_all(v, es).buckets[i]),
    decreases es.len(),
{
    lemma_closest_is_closest(v.owner, es, v.k);
    if es.len() == 0 {
        assert(v.buckets[i] =~= Seq::<Entry>::empty());
    } else {
        let t = es.drop_last();
        let e = es.last();
        assert(forall|j: int| 0 <= j < t.len() ==> t[j] == es[j]);
        assert(one_bucket(v, t, i));
        lemma_bucket_capacity_replace(v, t, i);
        let w = offer_replace_all(v, t);
        lemma_offer_replace_wf(w, e);
        lemma_common_bits_range(v.owner, e.id);
        assert(v.bucket_of(es[es.len() - 1].id) == i);
        assert(!has_id(t, e.id)) by {
            if has_id(t, e.id) {
                let m = choose|m: int| 0 <= m < t.len() && (#[trigger] t[m]).id == e.id;
                assert(es[m].id == es[es.len() - 1].id);
            }
        }
        lemma_closest_lacks(v.owner, t, v.k, e.id);
    }
}

/// After offers of distinct peers of one bucket, which was empty before, that
/// bucket holds the first `k` of them in the order of offering (all of them
/// where there are fewer), nearest to the owner first: a full bucket takes no
/// further peer.
pub proof fn lemma_offer_all_keeps_leading(v: KtableView, es: Seq<Entry>, i: int)
    requires
        v.wf(),
        one_bucket(v, es, i),
        v.buckets[i].len() == 0,
    ensures
        offer_all(v, es).wf(),
        offer_all(v, es).k == v.k,
        offer_all(v, es).owner == v.owner,
        offer_all(v, es).buckets[i] == closest(v.owner, leading(es, v.k), v.k),
    decreases es.len(),
{
    if es.len() == 0 {
        assert(v.buckets[i] =~= Seq::<Entry>::empty());
        assert(leading(es, v.k) =~= es);
    } else {
        let t = es.drop_last();
        let e = es.last();
        assert(forall|j: int| 0 <= j < t.len() ==> t[j] == es[j]);
        assert(one_bucket(v, t, i));
        lemma_offer_all_keeps_leading(v, t, i);
        let w = offer_all(v, t);
        lemma_offer_wf(w, e);
        lemma_common_bits_range(v.owner, e.id);
        assert(v.bucket_of(es[es.len() - 1].id) == i);
        let lt = leading(t, v.k);
        assert(distinct_ids(lt));
        assert(!has_id(lt, e.id)) by {
            if has_id(lt, e.id) {
                let m = choose|m: int| 0 <= m < lt.len() && (#[trigger] lt[m]).id == e.id;
                assert(es[m].id == es[es.len() - 1].id);
            }
        }
        lemma_closest_lacks(v.owner, lt, v.k, e.id);
        lemma_closest_is_closest(v.owner, lt, v.k);
        let r0 = closest(v.owner, lt, v.k);
        assert(w.buckets[i] == r0);
        assert(w.bucket_of(e.id) == i);
        if t.len() < v.k {
            assert(lt == t);
            assert(leading(es, v.k) =~= es);
            assert(r0.len() == t.len());
            lemma_closer_count_bound(v.owner, r0, e.id);
            let g = r0.insert(closer_count(v.owner, r0, e.id) as int, e);
        } else {
            assert(leading(es, v.k) =~= lt);
        }
    }
}

/// Where the first `k` entries of `es` are nearer to `center` than all later
/// ones, the `k` nearest of `es` are the `k` nearest of its first `k`.
pub proof fn lemma_closest_of_leading(center: Id, es: Seq<Entry>, k: nat)
    requires
        distinct_ids(es),
        forall|a: int, b: int|
            #![trigger es[a], es[b]]
            0 <= a < k <= b < es.len() ==> dist_to(center, es[a]) < dist_to(center, es[b]),
    ensures
        closest(center, leading(es, k), k) == closest(center, es, k),
    decreases es.len(),
{
    if es.len() <= k {
        assert(leading(es, k) =~= es);
    } else {
        let t = es.drop_last();
        let e = es.last();
        let last = es.len() - 1;
        assert(forall|j: int| 0 <= j < t.len() ==> t[j] == es[j]);
        assert(distinct_ids(t));
        lemma_closest_of_leading(center, t, k);
        let lead = leading(es, k);
        assert(leading(t, k) =~= lead);
        assert(distinct_ids(lead));
        lemma_closest_is_closest(center, lead, k);
        let r0 = closest(center, lead, k);
        assert(r0.len() == k);
        assert forall|j: int| 0 <= j < r0.len() implies dist_to(center, #[trigger] r0[j])
            < center.spec_distance(e.id) by {
            assert(lead.contains(r0[j]));
            let m = choose|m: int| 0 <= m < lead.len() && lead[m] == r0[j];
            assert(es[m] == r0[j]);
            assert(dist_to(center, es[m]) < dist_to(center, es[last]));
        }
        lemma_closer_count_at(center, r0, e.id, r0.len() as int);
        assert(r0.insert(r0.len() as int, e).drop_last() =~= r0);
    }
}

/// After offers of distinct peers of one bucket, which was empty before, where
/// no peer offered after the first `k` is nearer to the owner than one of the
/// first `k`, that bucket holds the `k` offered peers that are nearest to the
/// owner (all of them where there are fewer), nearest first.
pub proof fn lemma_bucket_capacity_offer(v: KtableView, es: Seq<Entry>, i: int)
    requires
        v.wf(),
        one_bucket(v, es, i),
        v.buckets[i].len() == 0,
        forall|a: int, b: int|
            #![trigger es[a], es[b]]
            0 <= a < v.k <= b < es.len() ==> dist_to(v.owner, es[a]) < dist_to(v.owner, es[b]),
    ensures
        offer_all(v, es).wf(),
        offer_all(v, es).buckets[i] == closest(v.owner, es, v.k),
        is_closest(v.owner, es, v.k, offer_all(v, es).buckets[i]),
{
    lemma_offer_all_keeps_leading(v, es, i);
    lemma_closest_of_leading(v.owner, es, v.k);
    lemma_closest_is_closest(v.owner, es, v.k);
}

/// A table in order knows a peer exactly when the bucket in which the peer
/// belongs holds it; and it never knows its owner.
pub proof fn lemma_knows_bucket(v: KtableView, id: Id)
    requires
        v.wf(),
    ensures
        v.knows(id) <==> (id != v.owner && has_id(v.buckets[v.bucket_of(id)], id)),
{
    lemma_common_bits_range(v.owner, id);
    lemma_entries_distinct(v);
    if v.knows(id) {
        let q = choose|q: int| 0 <= q < v.entries().len() && (#[trigger] v.entries()[q]).id == id;
        lemma_entry_in_bucket(v, q);
        let (m, j) = choose|m: int, j: int|
            0 <= m < v.buckets.len() && 0 <= j < v.buckets[m].len() && #[trigger] v.buckets[m][j]
                == v.entries()[q];
        assert(v.bucket_ok(m));
        assert(v.bucket_of(v.buckets[m][j].id) == m);
        assert(v.buckets[m][j].id == id);
    }
    if id != v.owner && has_id(v.buckets[v.bucket_of(id)], id) {
        let i = v.bucket_of(id);
        let j = choose|j: int| 0 <= j < v.buckets[i].len() && (#[trigger] v.buckets[i][j]).id == id;
        lemma_entry_of_bucket(v, i, j);
        let q = choose|q: int| 0 <= q < v.entries().len() && v.entries()[q] == v.buckets[i][j];
        assert(v.entries()[q].id == id);
    }
}

/// A removal makes no peer known that was not known before.
pub proof fn lemma_delete_keeps_unknown(v: KtableView, x: Id, y: Id)
    requires
        v.wf(),
        !v.knows(y),
    ensures
        !v.delete_id(x).knows(y),
{
    let w = v.delete_id(x);
    lemma_delete_id_wf(v, x);
    lemma_knows_bucket(v, y);
    lemma_knows_bucket(w, y);
    lemma_common_bits_range(v.owner, x);
    lemma_common_bits_range(v.owner, y);
    if w.knows(y) && x != v.owner {
        let bx = v.bucket_of(x);
        let by = v.bucket_of(y);
        if bx == by {
            let b = v.buckets[bx];
            let nb = without_id(b, x);
            assert(v.bucket_ok(bx));
            lemma_sorted_distinct(v.owner, b);
            let q = choose|q: int| 0 <= q < nb.len() && (#[trigger] nb[q]).id == y;
            if has_id(b, x) {
                let p = choose|p: int| 0 <= p < b.len() && (#[trigger] b[p]).id == x;
                lemma_without_id_removes(b, x, p);
                let q0 = if q < p { q } else { q + 1 };
                assert(nb[q] == b[q0]);
                assert(b[q0].id == y);
            } else {
                lemma_without_id_absent(b, x);
                assert(b[q].id == y);
            }
        } else {
            assert(w.buckets[by] == v.buckets[by]);
        }
    }
}

/// What `get` hands out is known to the table.
pub proof fn lemma_get_known(v: KtableView, n: nat, x: int)
    requires
        v.wf(),
        0 <= x < v.get(n).len(),
    ensures
        v.knows(v.get(n)[x].id),
{
    let rev = v.buckets.reverse();
    let all = rev.flatten();
    assert(all[x] == v.get(n)[x]);
    let w = KtableView { buckets: rev, ..v };
    lemma_entry_in_bucket(w, x);
    let (m, j) = choose|m: int, j: int|
        0 <= m < rev.len() && 0 <= j < rev[m].len() && #[trigger] rev[m][j] == all[x];
    let m0 = v.buckets.len() - 1 - m;
    assert(rev[m] == v.buckets[m0]);
    lemma_entry_of_bucket(v, m0, j);
    let q = choose|q: int| 0 <= q < v.entries().len() && v.entries()[q] == v.buckets[m0][j];
    assert(v.entries()[q].id == v.get(n)[x].id);
}

/// The entries of the last `k` buckets, the last bucket first, come in
/// ascending distance from the owner.
pub proof fn lemma_reverse_prefix_sorted(v: KtableView, k: int)
    requires
        v.wf(),
        0 <= k <= BUCKETS,
    ensures
        sorted_from(v.owner, v.buckets.reverse().take(k).flatten()),
        forall|q: int|
            0 <= q < v.buckets.reverse().take(k).flatten().len() ==> v.bucket_of(
                (#[trigger] v.buckets.reverse().take(k).flatten()[q]).id,
            ) >= BUCKETS - k,
    decreases k,
{
    let rev = v.buckets.reverse();
    if k == 0 {
        assert(rev.take(0).flatten() =~= Seq::<Entry>::empty());
    } else {
        lemma_reverse_prefix_sorted(v, k - 1);
        lemma_flatten_take_step(rev, k - 1);
        let a = rev.take(k - 1).flatten();
        let b = rev[k - 1];
        let f = rev.take(k).flatten();
        assert(b == v.buckets[BUCKETS - k]);
        assert(v.bucket_ok(BUCKETS - k));
        assert(forall|q: int| 0 <= q < a.len() ==> f[q] == a[q]);
        assert(forall|q: int| a.len() <= q < f.len() ==> f[q] == b[q - a.len()]);
        assert forall|q: int| 0 <= q < f.len() implies v.bucket_of((#[trigger] f[q]).id)
            >= BUCKETS - k by {
            if q < a.len() {
                assert(f[q] == a[q]);
            } else {
                assert(f[q] == b[q - a.len()]);
            }
        }
        assert forall|i: int, j: int| #![trigger f[i], f[j]] 0 <= i < j < f.len() implies dist_to(
            v.owner,
            f[i],
        ) < dist_to(v.owner, f[j]) by {
            if j < a.len() {
                assert(dist_to(v.owner, a[i]) < dist_to(v.owner, a[j]));
            } else if i < a.len() {
                assert(v.bucket_of(a[i].id) >= BUCKETS - k + 1);
                assert(v.bucket_of(b[j - a.len()].id) == BUCKETS - k);
                lemma_longer_prefix_is_nearer(v.owner, a[i].id, b[j - a.len()].id);
            } else {
                assert(dist_to(v.owner, b[i - a.len()]) < dist_to(v.owner, b[j - a.len()]));
            }
        }
    }
}

/// What `get` hands out comes in ascending distance from the owner: a peer
/// that shares more leading bits with the owner is nearer to it. So `get(n)`
/// hands out the `n` peers of the table that are nearest to its owner.
pub proof fn lemma_get_sorted(v: KtableView, n: nat)
    requires
        v.wf(),
    ensures
        sorted_from(v.owner, v.get(n)),
        v.get(n).len() <= n,
        forall|i: int, j: int|
            #![trigger v.get(n)[i], v.buckets.reverse().flatten()[j]]
            0 <= i < v.get(n).len() <= j < v.buckets.reverse().flatten().len() ==> dist_to(
                v.owner,
                v.get(n)[i],
            ) < dist_to(v.owner, v.buckets.reverse().flatten()[j]),
{
    let rev = v.buckets.reverse();
    lemma_reverse_prefix_sorted(v, BUCKETS as int);
    assert(rev.take(BUCKETS as int) =~= rev);
    let all = rev.flatten();
    let g = v.get(n);
    assert(forall|i: int| 0 <= i < g.len() ==> g[i] == all[i]);
    assert forall|i: int, j: int| #![trigger g[i], g[j]] 0 <= i < j < g.len() implies dist_to(
        v.owner,
        g[i],
    ) < dist_to(v.owner, g[j]) by {
        assert(dist_to(v.owner, all[i]) < dist_to(v.owner, all[j]));
    }
    assert forall|i: int, j: int|
        #![trigger g[i], all[j]]
        0 <= i < g.len() <= j < all.len() implies dist_to(v.owner, g[i]) < dist_to(
        v.owner,
        all[j],
    ) by {
        assert(dist_to(v.owner, all[i]) < dist_to(v.owner, all[j]));
    }
}

} // verus!
