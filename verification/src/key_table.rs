//! A small verified table from string keys to values, the shape every piece
//! of relay state shares: room membership, operator bindings, the site-room
//! cache, unread counters and the persisted tables are all keyed by an opaque
//! string. The table is a vector of pairs with pairwise-distinct keys, and
//! its specification view is the corresponding `Map<Seq<char>, V>`.

use vstd::prelude::*;

use crate::util::str_eq;

verus! {

pub struct KeyTable<V> {
    items: Vec<(String, V)>,
}

/// The map denoted by a sequence of key/value pairs; later pairs win,
/// though a well-formed table never has two pairs with one key.
pub open spec fn pairs_map<V>(s: Seq<(String, V)>) -> Map<Seq<char>, V>
    decreases s.len(),
{
    if s.len() == 0 {
        Map::empty()
    } else {
        pairs_map(s.drop_last()).insert(s.last().0@, s.last().1)
    }
}

impl<V> KeyTable<V> {
    /// The pairs held, in insertion order.
    pub closed spec fn pairs(self) -> Seq<(String, V)> {
        self.items@
    }

    /// Keys are pairwise distinct.
    pub open spec fn wf(self) -> bool {
        forall|i: int, j: int|
            0 <= i < j < self.pairs().len() ==> (#[trigger] self.pairs()[i]).0@ != (
            #[trigger] self.pairs()[j]).0@
    }

    pub open spec fn view(self) -> Map<Seq<char>, V> {
        pairs_map(self.pairs())
    }

    pub fn new() -> (r: Self)
        ensures
            r.wf(),
            r@ == Map::<Seq<char>, V>::empty(),
            r.pairs().len() == 0,
    {
        KeyTable { items: Vec::new() }
    }

    /// How many keys are present.
    pub fn len(&self) -> (n: usize)
        ensures
            n == self.pairs().len(),
    {
        self.items.len()
    }

    /// The position of `key` among the pairs, if it is present.
    fn find(&self, key: &str) -> (r: Option<usize>)
        ensures
            match r {
                Some(i) => i < self.pairs().len() && self.pairs()[i as int].0@ == key@,
                None => forall|i: int|
                    0 <= i < self.pairs().len() ==> (#[trigger] self.pairs()[i]).0@ != key@,
            },
    {
        let n = self.items.len();
        let mut i: usize = 0;
        while i < n
            invariant
                i <= n,
                n == self.pairs().len(),
                forall|j: int| 0 <= j < i ==> (#[trigger] self.pairs()[j]).0@ != key@,
            decreases n - i,
        {
            if str_eq(self.items[i].0.as_str(), key) {
                return Some(i);
            }
            i = i + 1;
        }
        None
    }

    pub fn contains_key(&self, key: &str) -> (r: bool)
        requires
            self.wf(),
        ensures
            r == self@.contains_key(key@),
    {
        proof {
            lemma_pairs_map_complete(self.pairs(), key@);
        }
        self.find(key).is_some()
    }

    pub fn get(&self, key: &str) -> (r: Option<&V>)
        requires
            self.wf(),
        ensures
            match r {
                Some(v) => self@.contains_key(key@) && *v == self@[key@],
                None => !self@.contains_key(key@),
            },
    {
        proof {
            lemma_pairs_map_complete(self.pairs(), key@);
        }
        match self.find(key) {
            Some(i) => {
                proof {
                    lemma_pairs_map_index(self.pairs(), i as int);
                }
                Some(&self.items[i].1)
            },
            None => None,
        }
    }

    /// Insert or overwrite the value under `key`.
    pub fn insert(&mut self, key: String, value: V)
        requires
            old(self).wf(),
        ensures
            final(self).wf(),
            final(self)@ == old(self)@.insert(key@, value),
            final(self).pairs().len() == if old(self)@.contains_key(key@) {
                old(self).pairs().len() as int
            } else {
                old(self).pairs().len() + 1 as int
            },
    {
        proof {
            lemma_pairs_map_complete(self.pairs(), key@);
        }
        match self.find(key.as_str()) {
            Some(i) => {
                proof {
                    lemma_pairs_map_index(self.pairs(), i as int);
                }
                self.items[i] = (key, value);
                proof {
                    lemma_pairs_map_update(old(self).pairs(), i as int, (key, value));
                }
            },
            None => {
                self.items.push((key, value));
                proof {
                    assert(self.pairs().drop_last() =~= old(self).pairs());
                }
            },
        }
    }

    /// Remove the pair under `key`, if any.
    pub fn remove(&mut self, key: &str)
        requires
            old(self).wf(),
        ensures
            final(self).wf(),
            final(self)@ == old(self)@.remove(key@),
            final(self).pairs().len() == if old(self)@.contains_key(key@) {
                old(self).pairs().len() - 1
            } else {
                old(self).pairs().len() as int
            },
    {
        proof {
            lemma_pairs_map_complete(self.pairs(), key@);
        }
        match self.find(key) {
            Some(i) => {
                self.items.remove(i);
                proof {
                    lemma_pairs_map_remove(old(self).pairs(), i as int);
                    assert(self.pairs() =~= old(self).pairs().remove(i as int));
                }
            },
            None => {
                proof {
                    assert(old(self)@ =~= old(self)@.remove(key@));
                }
            },
        }
    }

    /// The key of the pair at position `i`.
    pub fn key_at(&self, i: usize) -> (r: &String)
        requires
            i < self.pairs().len(),
        ensures
            r@ == self.pairs()[i as int].0@,
            self.wf() ==> self@.contains_key(r@) && self@[r@] == self.pairs()[i as int].1,
    {
        proof {
            if self.wf() {
                lemma_pairs_map_index(self.pairs(), i as int);
            }
        }
        &self.items[i].0
    }

    /// The value of the pair at position `i`.
    pub fn value_at(&self, i: usize) -> (r: &V)
        requires
            i < self.pairs().len(),
        ensures
            *r == self.pairs()[i as int].1,
            self.wf() ==> self@.contains_key(self.pairs()[i as int].0@),
            self.wf() ==> self@[self.pairs()[i as int].0@] == *r,
    {
        proof {
            if self.wf() {
                lemma_pairs_map_index(self.pairs(), i as int);
            }
        }
        &self.items[i].1
    }

    /// All keys, in table order.
    pub fn keys(&self) -> (r: Vec<String>)
        ensures
            r@.len() == self.pairs().len(),
            forall|i: int| 0 <= i < r@.len() ==> (#[trigger] r@[i])@ == self.pairs()[i].0@,
    {
        let n = self.items.len();
        let mut r: Vec<String> = Vec::new();
        let mut i: usize = 0;
        while i < n
            invariant
                i <= n,
                n == self.pairs().len(),
                r@.len() == i as int,
                forall|j: int| 0 <= j < i ==> (#[trigger] r@[j])@ == self.pairs()[j].0@,
            decreases n - i,
        {
            r.push(self.items[i].0.clone());
            i = i + 1;
        }
        r
    }
}

/// With distinct keys, the pair at any position is what the map holds.
pub proof fn lemma_pairs_map_index<V>(s: Seq<(String, V)>, i: int)
    requires
        0 <= i < s.len(),
        forall|p: int, q: int|
            0 <= p < q < s.len() ==> (#[trigger] s[p]).0@ != (#[trigger] s[q]).0@,
    ensures
        pairs_map(s).contains_key(s[i].0@),
        pairs_map(s)[s[i].0@] == s[i].1,
    decreases s.len(),
{
    if i < s.len() - 1 {
        assert(s.drop_last()[i] == s[i]);
        lemma_pairs_map_index(s.drop_last(), i);
        assert(s[i].0@ != s.last().0@);
    }
}

/// Every key of the map labels some pair.
pub proof fn lemma_pairs_map_complete<V>(s: Seq<(String, V)>, k: Seq<char>)
    ensures
        pairs_map(s).contains_key(k) ==> exists|i: int| 0 <= i < s.len() && (#[trigger] s[i]).0@
            == k,
        (exists|i: int| 0 <= i < s.len() && (#[trigger] s[i]).0@ == k) ==> pairs_map(
            s,
        ).contains_key(k),
    decreases s.len(),
{
    if s.len() > 0 {
        lemma_pairs_map_complete(s.drop_last(), k);
        if pairs_map(s).contains_key(k) && k != s.last().0@ {
            let i = choose|i: int| 0 <= i < s.drop_last().len() && (#[trigger] s.drop_last()[i]).0@
                == k;
            assert(s[i] == s.drop_last()[i]);
        }
        if exists|i: int| 0 <= i < s.len() && (#[trigger] s[i]).0@ == k {
            let i = choose|i: int| 0 <= i < s.len() && (#[trigger] s[i]).0@ == k;
            if i < s.len() - 1 {
                assert(s.drop_last()[i] == s[i]);
            }
        }
    }
}

/// Updating the pair at position `i` updates the map at that pair's key,
/// provided keys are distinct and the key is kept.
proof fn lemma_pairs_map_update<V>(s: Seq<(String, V)>, i: int, p: (String, V))
    requires
        0 <= i < s.len(),
        forall|x: int, y: int|
            0 <= x < y < s.len() ==> (#[trigger] s[x]).0@ != (#[trigger] s[y]).0@,
        p.0@ == s[i].0@,
    ensures
        pairs_map(s.update(i, p)) == pairs_map(s).insert(p.0@, p.1),
    decreases s.len(),
{
    let t = s.update(i, p);
    if i == s.len() - 1 {
        assert(t.drop_last() =~= s.drop_last());
        assert(pairs_map(t) == pairs_map(s.drop_last()).insert(p.0@, p.1));
        assert(pairs_map(s).insert(p.0@, p.1) == pairs_map(s.drop_last()).insert(
            s.last().0@,
            s.last().1,
        ).insert(p.0@, p.1));
        assert(pairs_map(s.drop_last()).insert(s.last().0@, s.last().1).insert(p.0@, p.1)
            =~= pairs_map(s.drop_last()).insert(p.0@, p.1));
    } else {
        assert(t.drop_last() =~= s.drop_last().update(i, p));
        assert(forall|x: int, y: int|
            0 <= x < y < s.drop_last().len() ==> (#[trigger] s.drop_last()[x]).0@ != (
            #[trigger] s.drop_last()[y]).0@);
        lemma_pairs_map_update(s.drop_last(), i, p);
        assert(t.last() == s.last());
        assert(pairs_map(t) == pairs_map(s.drop_last()).insert(p.0@, p.1).insert(
            s.last().0@,
            s.last().1,
        ));
        assert(s[i].0@ != s.last().0@);
        assert(pairs_map(s.drop_last()).insert(p.0@, p.1).insert(s.last().0@, s.last().1)
            =~= pairs_map(s.drop_last()).insert(s.last().0@, s.last().1).insert(p.0@, p.1));
    }
}

/// Removing the pair at position `i` removes exactly that pair's key,
/// provided keys are distinct.
proof fn lemma_pairs_map_remove<V>(s: Seq<(String, V)>, i: int)
    requires
        0 <= i < s.len(),
        forall|x: int, y: int|
            0 <= x < y < s.len() ==> (#[trigger] s[x]).0@ != (#[trigger] s[y]).0@,
    ensures
        pairs_map(s.remove(i)) == pairs_map(s).remove(s[i].0@),
    decreases s.len(),
{
    let t = s.remove(i);
    if i == s.len() - 1 {
        assert(t =~= s.drop_last());
        lemma_pairs_map_complete(s.drop_last(), s[i].0@);
        assert(!pairs_map(s.drop_last()).contains_key(s[i].0@)) by {
            if pairs_map(s.drop_last()).contains_key(s[i].0@) {
                let j = choose|j: int|
                    0 <= j < s.drop_last().len() && (#[trigger] s.drop_last()[j]).0@ == s[i].0@;
                assert(s[j] == s.drop_last()[j]);
            }
        }
        assert(pairs_map(s.drop_last()) =~= pairs_map(s.drop_last()).insert(
            s.last().0@,
            s.last().1,
        ).remove(s[i].0@));
    } else {
        assert(t.drop_last() =~= s.drop_last().remove(i));
        lemma_pairs_map_remove(s.drop_last(), i);
        assert(t.last() == s.last());
        assert(pairs_map(t) == pairs_map(s.drop_last()).remove(s[i].0@).insert(
            s.last().0@,
            s.last().1,
        ));
        assert(s[i].0@ != s.last().0@);
        assert(pairs_map(s.drop_last()).remove(s[i].0@).insert(s.last().0@, s.last().1)
            =~= pairs_map(s.drop_last()).insert(s.last().0@, s.last().1).remove(s[i].0@));
    }
}

} // verus!
