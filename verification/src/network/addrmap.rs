//! Small maps and sets keyed by peer address. They keep their keys in the order
//! in which they were first inserted, so that walking them is repeatable.

use vstd::prelude::*;
use crate::network::Addr;

verus! {

/// The position of `a` in `v`, if it occurs.
fn position(v: &Vec<Addr>, a: &Addr) -> (r: Option<usize>)
    ensures
        match r {
            Some(i) => i < v@.len() && v@[i as int] == *a,
            None => !v@.contains(*a),
        },
{
    let mut i: usize = 0;
    while i < v.len()
        invariant
            i <= v@.len(),
            forall|j: int| 0 <= j < i ==> v@[j] != *a,
        decreases v@.len() - i,
    {
        if v[i] == *a {
            return Some(i);
        }
        i += 1;
    }
    None
}

/// The addresses of `s` other than `a`, in their order.
pub open spec fn others(s: Seq<Addr>, a: Addr) -> Seq<Addr> {
    s.filter(|b: Addr| b != a)
}

/// A map from peer addresses with the order of its keys, as a value of
/// specifications.
pub struct Peers<V> {
    /// The value of each key.
    pub map: Map<Addr, V>,
    /// The keys, in the order of their first insertion.
    pub order: Seq<Addr>,
}

impl<V> Peers<V> {
    /// No key.
    pub open spec fn empty() -> Peers<V> {
        Peers { map: Map::empty(), order: Seq::empty() }
    }

    /// Whether `a` is a key.
    pub open spec fn contains(self, a: Addr) -> bool {
        self.map.contains_key(a)
    }

    /// `a` mapped to `v`: a new key goes behind the others.
    pub open spec fn insert(self, a: Addr, v: V) -> Peers<V> {
        Peers {
            map: self.map.insert(a, v),
            order: if self.map.contains_key(a) {
                self.order
            } else {
                self.order.push(a)
            },
        }
    }

    /// Without the key `a`.
    pub open spec fn remove(self, a: Addr) -> Peers<V> {
        Peers { map: self.map.remove(a), order: others(self.order, a) }
    }

    /// The keys of the map are the entries of the order, each once.
    pub open spec fn wf(self) -> bool {
        &&& self.order.no_duplicates()
        &&& forall|a: Addr| self.map.contains_key(a) <==> self.order.contains(a)
    }
}

/// A map from peer addresses to values of type `V`.
pub struct AddrMap<V> {
    keys: Vec<Addr>,
    values: Vec<V>,
}

impl<V> View for AddrMap<V> {
    type V = Map<Addr, V>;

    closed spec fn view(&self) -> Map<Addr, V> {
        Map::new(|a: Addr| self.keys@.contains(a), |a: Addr| self.values@[self.keys@.index_of(a)])
    }
}

impl<V> AddrMap<V> {
    /// The keys in the order in which `keys` hands them out: that of their
    /// first insertion.
    pub closed spec fn order(&self) -> Seq<Addr> {
        self.keys@
    }

    /// The map with the order of its keys.
    pub open spec fn peers(&self) -> Peers<V> {
        Peers { map: self@, order: self.order() }
    }

    /// Every key is stored once, with one value.
    pub closed spec fn wf(&self) -> bool {
        &&& self.keys@.len() == self.values@.len()
        &&& self.keys@.no_duplicates()
    }

    /// The keys of the map are the entries of `order`, each once.
    pub proof fn lemma_order(&self)
        requires
            self.wf(),
        ensures
            self.order().no_duplicates(),
            self@.dom() == self.order().to_set(),
            self@.dom().finite(),
            self@.dom().len() == self.order().len(),
            forall|a: Addr| self@.contains_key(a) <==> self.order().contains(a),
            self.peers().wf(),
    {
        assert(self@.dom() =~= self.keys@.to_set());
        self.keys@.unique_seq_to_set();
        vstd::seq_lib::seq_to_set_is_finite(self.keys@);
    }

    /// The value stored at position `i` is the value of the key at position `i`.
    proof fn lemma_value_at(&self, i: int)
        requires
            self.wf(),
            0 <= i < self.keys@.len(),
        ensures
            self@.contains_key(self.keys@[i]),
            self@[self.keys@[i]] == self.values@[i],
    {
        let a = self.keys@[i];
        assert(self.keys@.contains(a));
        let j = self.keys@.index_of(a);
        assert(0 <= j < self.keys@.len() && self.keys@[j] == a);
        if i != j {
            assert(self.keys@[i] == self.keys@[j]);
        }
    }

    /// An empty map.
    pub fn new() -> (m: AddrMap<V>)
        ensures
            m.wf(),
            m@ == Map::<Addr, V>::empty(),
            m.order() == Seq::<Addr>::empty(),
    {
        let m = AddrMap { keys: Vec::new(), values: Vec::new() };
        assert(m@ =~= Map::<Addr, V>::empty());
        m
    }

    /// The number of keys.
    pub fn len(&self) -> (n: usize)
        requires
            self.wf(),
        ensures
            n == self@.dom().len(),
            n == self.order().len(),
    {
        proof {
            self.lemma_order();
        }
        self.keys.len()
    }

    /// Whether the map has no key.
    pub fn is_empty(&self) -> (r: bool)
        requires
            self.wf(),
        ensures
            r == (self@.dom().len() == 0),
            r == (self.order().len() == 0),
            r == (self@ == Map::<Addr, V>::empty()),
    {
        proof {
            self.lemma_order();
            if self.keys@.len() == 0 {
                assert(self@ =~= Map::<Addr, V>::empty());
            } else {
                assert(self.keys@.contains(self.keys@[0]));
                assert(self@.contains_key(self.keys@[0]));
            }
        }
        self.keys.len() == 0
    }

    /// Whether `a` is a key.
    pub fn contains_key(&self, a: &Addr) -> (r: bool)
        requires
            self.wf(),
        ensures
            r == self@.contains_key(*a),
    {
        position(&self.keys, a).is_some()
    }

    /// The value of `a`, if `a` is a key.
    pub fn get(&self, a: &Addr) -> (r: Option<&V>)
        requires
            self.wf(),
        ensures
            match r {
                Some(v) => self@.contains_key(*a) && *v == self@[*a],
                None => !self@.contains_key(*a),
            },
    {
        match position(&self.keys, a) {
            Some(i) => {
                proof {
                    self.lemma_value_at(i as int);
                }
                Some(&self.values[i])
            },
            None => None,
        }
    }

    /// Maps `a` to `v`. A new key goes behind the others; a key that was there
    /// keeps its place, and its former value is handed back.
    pub fn insert(&mut self, a: Addr, v: V) -> (former: Option<V>)
        requires
            old(self).wf(),
        ensures
            final(self).wf(),
            final(self)@ == old(self)@.insert(a, v),
            former == if old(self)@.contains_key(a) {
                Some(old(self)@[a])
            } else {
                None
            },
            final(self).order() == if old(self)@.contains_key(a) {
                old(self).order()
            } else {
                old(self).order().push(a)
            },
    {
        match position(&self.keys, &a) {
            Some(i) => {
                proof {
                    self.lemma_value_at(i as int);
                }
                self.values.insert(i, v);
                let grown = self.values.len();
                assert(i + 1 < grown);
                let former = self.values.remove(i + 1);
                proof {
                    assert forall|b: Addr| self@.contains_key(b) implies #[trigger] self@[b] == old(
                        self,
                    )@.insert(a, v)[b] by {
                        let j = self.keys@.index_of(b);
                        old(self).lemma_value_at(j);
                        self.lemma_value_at(j);
                        if j == i {
                            assert(b == a);
                        }
                    }
                    assert(self@ =~= old(self)@.insert(a, v));
                }
                Some(former)
            },
            None => {
                self.keys.push(a);
                self.values.push(v);
                proof {
                    let n = old(self).keys@.len() as int;
                    assert(self.keys@[n] == a);
                    assert forall|b: Addr| self.keys@.contains(b) <==> (old(self).keys@.contains(b)
                        || b == a) by {
                        if old(self).keys@.contains(b) {
                            let j = old(self).keys@.index_of(b);
                            assert(self.keys@[j] == b);
                        }
                    }
                    assert forall|b: Addr| self@.contains_key(b) implies #[trigger] self@[b] == old(
                        self,
                    )@.insert(a, v)[b] by {
                        let j = self.keys@.index_of(b);
                        self.lemma_value_at(j);
                        if j < n {
                            old(self).lemma_value_at(j);
                        }
                    }
                    assert(self@ =~= old(self)@.insert(a, v));
                }
                None
            },
        }
    }

    /// Removes the key `a` and hands back its value, if `a` is a key. The other
    /// keys keep their order.
    pub fn remove(&mut self, a: &Addr) -> (former: Option<V>)
        requires
            old(self).wf(),
        ensures
            final(self).wf(),
            final(self)@ == old(self)@.remove(*a),
            former == if old(self)@.contains_key(*a) {
                Some(old(self)@[*a])
            } else {
                None
            },
            final(self).order() == others(old(self).order(), *a),
    {
        match position(&self.keys, a) {
            Some(i) => {
                proof {
                    self.lemma_value_at(i as int);
                    lemma_filter_removes(self.keys@, *a, i as int);
                }
                self.keys.remove(i);
                let former = self.values.remove(i);
                proof {
                    let ok = old(self).keys@;
                    assert(forall|j: int| 0 <= j < i ==> self.keys@[j] == ok[j]);
                    assert(forall|j: int| i <= j < self.keys@.len() ==> self.keys@[j] == ok[j + 1]);
                    assert(self.keys@.no_duplicates()) by {
                        assert forall|x: int, y: int|
                            0 <= x < self.keys@.len() && 0 <= y < self.keys@.len() && x
                                != y implies self.keys@[x] != self.keys@[y] by {
                            let x0 = if x < i { x } else { x + 1 };
                            let y0 = if y < i { y } else { y + 1 };
                            assert(ok[x0] != ok[y0]);
                        }
                    }
                    assert forall|b: Addr| self.keys@.contains(b) <==> (ok.contains(b) && b
                        != *a) by {
                        if self.keys@.contains(b) {
                            let j = self.keys@.index_of(b);
                            let j0 = if j < i { j } else { j + 1 };
                            assert(ok[j0] == b);
                            assert(ok[j0] != ok[i as int]);
                        }
                        if ok.contains(b) && b != *a {
                            let j0 = ok.index_of(b);
                            let j = if j0 < i { j0 } else { j0 - 1 };
                            assert(self.keys@[j] == b);
                        }
                    }
                    assert forall|b: Addr| self@.contains_key(b) implies #[trigger] self@[b] == old(
                        self,
                    )@.remove(*a)[b] by {
                        let j = self.keys@.index_of(b);
                        let j0 = if j < i { j } else { j + 1 };
                        self.lemma_value_at(j);
                        old(self).lemma_value_at(j0);
                    }
                    assert(self@ =~= old(self)@.remove(*a));
                }
                Some(former)
            },
            None => {
                proof {
                    lemma_filter_absent(self.keys@, *a);
                    assert(self@ =~= old(self)@.remove(*a));
                }
                None
            },
        }
    }

    /// Removes every key.
    pub fn clear(&mut self)
        ensures
            final(self).wf(),
            final(self)@ == Map::<Addr, V>::empty(),
            final(self).order() == Seq::<Addr>::empty(),
    {
        self.keys.clear();
        self.values.clear();
        assert(self@ =~= Map::<Addr, V>::empty());
    }

    /// The keys, in the order of their first insertion.
    pub fn keys(&self) -> (r: Vec<Addr>)
        requires
            self.wf(),
        ensures
            r@ == self.order(),
            r@.no_duplicates(),
            r@.to_set() == self@.dom(),
    {
        proof {
            self.lemma_order();
        }
        let mut r: Vec<Addr> = Vec::new();
        let mut i: usize = 0;
        while i < self.keys.len()
            invariant
                i <= self.keys@.len(),
                r@ == self.keys@.take(i as int),
            decreases self.keys@.len() - i,
        {
            r.push(self.keys[i]);
            assert(self.keys@.take(i + 1) =~= self.keys@.take(i as int).push(self.keys@[i as int]));
            i += 1;
        }
        assert(self.keys@.take(i as int) =~= self.keys@);
        r
    }
}

/// The elements of a list with one more element at its end.
pub proof fn lemma_push_to_set<A>(s: Seq<A>, a: A)
    ensures
        s.push(a).to_set() == s.to_set().insert(a),
{
    let t = s.push(a);
    assert forall|x: A| t.contains(x) <==> (s.contains(x) || x == a) by {
        if s.contains(x) {
            let i = s.index_of(x);
            assert(t[i] == x);
        }
        if x == a {
            assert(t[s.len() as int] == a);
        }
        if t.contains(x) {
            let i = t.index_of(x);
            if i < s.len() {
                assert(s[i] == x);
            }
        }
    }
    assert(t.to_set() =~= s.to_set().insert(a));
}

/// Filtering out an address that does not occur changes nothing.
pub proof fn lemma_filter_absent(s: Seq<Addr>, a: Addr)
    requires
        !s.contains(a),
    ensures
        others(s, a) == s,
    decreases s.len(),
{
    reveal(Seq::filter);
    if s.len() > 0 {
        let t = s.drop_last();
        assert(forall|j: int| 0 <= j < t.len() ==> t[j] == s[j]);
        assert(!t.contains(a));
        lemma_filter_absent(t, a);
        assert(s[s.len() - 1] != a);
        assert(t.push(s.last()) =~= s);
    }
}

/// Filtering an address out of a list in which it occurs once removes that
/// occurrence.
pub proof fn lemma_filter_removes(s: Seq<Addr>, a: Addr, p: int)
    requires
        s.no_duplicates(),
        0 <= p < s.len(),
        s[p] == a,
    ensures
        others(s, a) == s.remove(p),
    decreases s.len(),
{
    reveal(Seq::filter);
    let t = s.drop_last();
    assert(forall|j: int| 0 <= j < t.len() ==> t[j] == s[j]);
    if p == s.len() - 1 {
        assert(!t.contains(a)) by {
            if t.contains(a) {
                let j = t.index_of(a);
                assert(s[j] == s[p]);
            }
        }
        lemma_filter_absent(t, a);
        assert(s.remove(p) =~= t);
    } else {
        assert(t.no_duplicates());
        lemma_filter_removes(t, a, p);
        assert(s[s.len() - 1] != s[p]);
        assert(t.remove(p).push(s.last()) =~= s.remove(p));
    }
}

/// A set of peer addresses.
pub struct AddrSet {
    items: Vec<Addr>,
}

impl View for AddrSet {
    type V = Set<Addr>;

    closed spec fn view(&self) -> Set<Addr> {
        self.items@.to_set()
    }
}

impl AddrSet {
    /// An empty set.
    pub fn new() -> (s: AddrSet)
        ensures
            s@ == Set::<Addr>::empty(),
    {
        let s = AddrSet { items: Vec::new() };
        assert(s@ =~= Set::<Addr>::empty());
        s
    }

    /// Whether `a` is in the set.
    pub fn contains(&self, a: &Addr) -> (r: bool)
        ensures
            r == self@.contains(*a),
    {
        position(&self.items, a).is_some()
    }

    /// Puts `a` into the set; the result says whether it was new.
    pub fn insert(&mut self, a: Addr) -> (fresh: bool)
        ensures
            final(self)@ == old(self)@.insert(a),
            fresh == !old(self)@.contains(a),
    {
        if position(&self.items, &a).is_some() {
            assert(self@ =~= old(self)@.insert(a));
            false
        } else {
            self.items.push(a);
            proof {
                let n = old(self).items@.len() as int;
                assert(self.items@[n] == a);
                assert forall|b: Addr| self.items@.contains(b) <==> (old(self).items@.contains(b)
                    || b == a) by {
                    if old(self).items@.contains(b) {
                        let j = old(self).items@.index_of(b);
                        assert(self.items@[j] == b);
                    }
                }
                assert(self@ =~= old(self)@.insert(a));
            }
            true
        }
    }
}

/// Removing a key keeps the keys and the order in step.
pub proof fn lemma_peers_remove<V>(c: Peers<V>, a: Addr)
    requires
        c.wf(),
    ensures
        c.remove(a).wf(),
        !c.remove(a).contains(a),
        forall|b: Addr| c.remove(a).contains(b) ==> c.contains(b) && c.remove(a).map[b] == c.map[b],
        forall|b: Addr| c.contains(b) && b != a ==> c.remove(a).contains(b),
{
    let o = c.order;
    let r = c.remove(a);
    if o.contains(a) {
        let p = o.index_of(a);
        lemma_filter_removes(o, a, p);
        assert(forall|j: int| 0 <= j < p ==> r.order[j] == o[j]);
        assert(forall|j: int| p <= j < r.order.len() ==> r.order[j] == o[j + 1]);
        assert forall|x: int, y: int|
            0 <= x < r.order.len() && 0 <= y < r.order.len() && x != y implies r.order[x]
            != r.order[y] by {
            let x0 = if x < p { x } else { x + 1 };
            let y0 = if y < p { y } else { y + 1 };
            assert(o[x0] != o[y0]);
        }
        assert forall|b: Addr| r.map.contains_key(b) <==> r.order.contains(b) by {
            if r.order.contains(b) {
                let j = r.order.index_of(b);
                assert(0 <= j < r.order.len() && r.order[j] == b);
                let j0 = if j < p { j } else { j + 1 };
                assert(o[j0] == b);
                assert(o[p] == a);
                assert(o[j0] != o[p]);
                assert(o.contains(b));
                assert(c.map.contains_key(b));
                assert(r.map.contains_key(b));
            }
            if r.map.contains_key(b) {
                assert(c.map.contains_key(b) && b != a);
                assert(o.contains(b));
                let j0 = o.index_of(b);
                assert(0 <= j0 < o.len() && o[j0] == b);
                let j = if j0 < p { j0 } else { j0 - 1 };
                assert(j0 != p);
                assert(0 <= j < r.order.len());
                assert(r.order[j] == b);
                assert(r.order.contains(b));
            }
        }
    } else {
        lemma_filter_absent(o, a);
        assert(!c.map.contains_key(a));
        assert(r.map =~= c.map);
    }
}

} // verus!
