//! A bounded first-in-first-out memory of recently seen hashes.

use vstd::prelude::*;
use std::collections::HashSet;
use std::collections::VecDeque;

verus! {

/// Remembers the last `maxsize` distinct hashes inserted. The queue holds them
/// in insertion order, the set answers membership.
pub struct Cache {
    vec: VecDeque<u64>,
    set: HashSet<u64>,
    maxsize: usize,
}

/// What a cache holds: the hashes, oldest first, and the capacity.
pub struct CacheView {
    /// The remembered hashes in the order in which they were inserted.
    pub queue: Seq<u64>,
    /// The largest number of hashes remembered at once.
    pub capacity: nat,
}

impl CacheView {
    /// Whether `x` is remembered.
    pub open spec fn contains(self, x: u64) -> bool {
        self.queue.contains(x)
    }

    /// The cache after `x` was offered to it: unchanged where `x` is
    /// remembered; otherwise `x` is appended, and the oldest hash leaves first
    /// where the cache is full.
    pub open spec fn insert(self, x: u64) -> CacheView {
        if self.contains(x) {
            self
        } else if self.queue.len() >= self.capacity {
            CacheView { queue: self.queue.drop_first().push(x), ..self }
        } else {
            CacheView { queue: self.queue.push(x), ..self }
        }
    }

    /// No hash is remembered twice, and no more than `capacity` are.
    pub open spec fn wf(self) -> bool {
        &&& self.capacity > 0
        &&& self.queue.len() <= self.capacity
        &&& self.queue.no_duplicates()
    }
}

impl View for Cache {
    type V = CacheView;

    closed spec fn view(&self) -> CacheView {
        CacheView { queue: self.vec@, capacity: self.maxsize as nat }
    }
}

impl Cache {
    /// The queue and the set hold the same hashes, within the capacity.
    pub closed spec fn wf(&self) -> bool {
        &&& self@.wf()
        &&& self.set@ == self.vec@.to_set()
    }

    /// What `wf` says of the view: the cache remembers no hash twice, and no
    /// more hashes than its capacity.
    pub proof fn lemma_wf(&self)
        requires
            self.wf(),
        ensures
            self@.wf(),
    {
    }

    /// An empty cache that remembers up to `maxsize` hashes.
    pub fn new(maxsize: usize) -> (c: Cache)
        requires
            maxsize > 0,
        ensures
            c.wf(),
            c@ == (CacheView { queue: Seq::empty(), capacity: maxsize as nat }),
    {
        let c = Cache { vec: VecDeque::new(), set: HashSet::new(), maxsize };
        assert(c.set@ =~= c.vec@.to_set());
        c
    }

    /// Whether `x` is remembered.
    pub fn contains(&self, x: &u64) -> (r: bool)
        requires
            self.wf(),
        ensures
            r == self@.contains(*x),
    {
        broadcast use vstd::std_specs::hash::group_hash_axioms;

        self.set.contains(x)
    }

    /// Remembers `x`. Returns false, and changes nothing, where `x` was
    /// remembered already. Otherwise `x` becomes the newest hash, the oldest
    /// one is forgotten if the cache was full, and the result is true.
    pub fn insert(&mut self, x: u64) -> (fresh: bool)
        requires
            old(self).wf(),
        ensures
            final(self).wf(),
            fresh == !old(self)@.contains(x),
            final(self)@ == old(self)@.insert(x),
            final(self)@.contains(x),
    {
        broadcast use vstd::std_specs::hash::group_hash_axioms;

        if self.contains(&x) {
            return false;
        }
        if self.vec.len() >= self.maxsize {
            let oldest = self.vec.pop_front();
            match oldest {
                Some(t) => {
                    self.set.remove(&t);
                    assert(self.vec@ == old(self).vec@.drop_first());
                    assert(self.set@ =~= self.vec@.to_set()) by {
                        assert forall|y: u64| self.vec@.contains(y) <==> (old(self).vec@.contains(
                            y,
                        ) && y != t) by {
                            if self.vec@.contains(y) {
                                let i = choose|i: int| 0 <= i < self.vec@.len() && self.vec@[i] == y;
                                assert(old(self).vec@[i + 1] == y);
                            }
                            if old(self).vec@.contains(y) && y != t {
                                let i = choose|i: int|
                                    0 <= i < old(self).vec@.len() && old(self).vec@[i] == y;
                                assert(self.vec@[i - 1] == y);
                            }
                        }
                    }
                },
                None => {},
            }
        }
        let ghost before = self.vec@;
        self.vec.push_back(x);
        self.set.insert(x);
        proof {
            assert(self.vec@ == before.push(x));
            assert(!before.contains(x));
            assert(self.vec@.no_duplicates());
            assert(self.set@ =~= self.vec@.to_set()) by {
                assert forall|y: u64| self.vec@.contains(y) <==> (before.contains(y) || y == x) by {
                    if before.contains(y) {
                        let i = choose|i: int| 0 <= i < before.len() && before[i] == y;
                        assert(self.vec@[i] == y);
                    }
                    if y == x {
                        assert(self.vec@[before.len() as int] == x);
                    }
                }
            }
            assert(self.vec@[before.len() as int] == x);
        }
        true
    }
}

/// A hash that has just been offered to the cache is refused when it is offered
/// again, and the second offer changes nothing.
pub proof fn lemma_insert_twice(c: CacheView, h: u64)
    requires
        c.wf(),
    ensures
        c.insert(h).wf(),
        c.insert(h).contains(h),
        c.insert(h).insert(h) == c.insert(h),
{
    if !c.contains(h) {
        let before = if c.queue.len() >= c.capacity {
            c.queue.drop_first()
        } else {
            c.queue
        };
        assert(forall|i: int| 0 <= i < before.len() ==> c.queue.contains(#[trigger] before[i]));
        let after = before.push(h);
        assert(after[before.len() as int] == h);
        assert(after.no_duplicates());
    }
}

} // verus!
