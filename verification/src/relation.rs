//! Ordered lists of references, one for each owning entity.

use vstd::prelude::*;
use crate::table::{Key, Table};

verus! {

/// Taking a value out of a list without repetitions leaves a list without
/// repetitions that lacks the value and holds everything else that was
/// there.
pub proof fn lemma_remove_value<V>(s: Seq<V>, v: V)
    requires
        s.no_duplicates(),
    ensures
        s.remove_value(v).no_duplicates(),
        !s.remove_value(v).contains(v),
        forall|x: V| x != v ==> (s.remove_value(v).contains(x) <==> s.contains(x)),
        s.contains(v) ==> s.remove_value(v).len() == s.len() - 1,
        !s.contains(v) ==> s.remove_value(v) == s,
{
    s.index_of_first_ensures(v);
    match s.index_of_first(v) {
        Some(i) => {
            let r = s.remove(i);
            s.remove_ensures(i);
            assert forall|x: V| x != v implies (r.contains(x) <==> s.contains(x)) by {
                if s.contains(x) {
                    let k = choose|k: int| 0 <= k < s.len() && s[k] == x;
                    if k < i {
                        assert(r[k] == x);
                    } else {
                        assert(r[k - 1] == x);
                    }
                }
                if r.contains(x) {
                    let k = choose|k: int| 0 <= k < r.len() && r[k] == x;
                    if k < i {
                        assert(s[k] == x);
                    } else {
                        assert(s[k + 1] == x);
                    }
                }
            }
            if r.contains(v) {
                let k = choose|k: int| 0 <= k < r.len() && r[k] == v;
                if k < i {
                    assert(s[k] == v);
                } else {
                    assert(s[k + 1] == v);
                }
            }
        },
        None => {},
    }
}

/// For each owner the ordered list of what belongs to it. An owner without a
/// list has the empty list.
pub struct RelationIndex<K: Key, V: Key> {
    lists: Table<K, Vec<V>>,
}

impl<K: Key, V: Key> RelationIndex<K, V> {
    /// The lists that are kept, by owner.
    pub closed spec fn view(&self) -> Map<K, Seq<V>> {
        Map::new(|k: K| self.lists@.contains_key(k), |k: K| self.lists@[k]@)
    }

    /// The list of `k`: the one kept, or the empty one.
    pub open spec fn items(&self, k: K) -> Seq<V> {
        if self@.contains_key(k) {
            self@[k]
        } else {
            Seq::empty()
        }
    }

    /// The index with no list.
    pub fn new() -> (r: Self)
        ensures
            r@ == Map::<K, Seq<V>>::empty(),
    {
        let r = RelationIndex { lists: Table::new() };
        assert(r@ =~= Map::<K, Seq<V>>::empty());
        r
    }

    /// The list of `k`, in order.
    pub fn list(&self, k: &K) -> (r: Vec<V>)
        ensures
            r@ == self.items(*k),
    {
        let mut out: Vec<V> = Vec::new();
        match self.lists.get(k) {
            Some(l) => {
                let mut i: usize = 0;
                while i < l.len()
                    invariant
                        i <= l@.len(),
                        out@ == l@.take(i as int),
                    decreases l@.len() - i,
                {
                    out.push(l[i]);
                    assert(l@.take(i + 1) =~= l@.take(i as int).push(l@[i as int]));
                    i += 1;
                }
                assert(l@.take(l@.len() as int) =~= l@);
            },
            None => {},
        }
        out
    }

    /// Gives `k` the list `items`, in place of the one it had.
    pub fn put(&mut self, k: K, items: Vec<V>)
        ensures
            final(self)@ == old(self)@.insert(k, items@),
    {
        self.lists.insert(k, items);
        assert(self@ =~= old(self)@.insert(k, items@));
    }

    /// Gives `k` the empty list.
    pub fn clear(&mut self, k: K)
        ensures
            final(self)@ == old(self)@.insert(k, Seq::<V>::empty()),
    {
        self.lists.insert(k, Vec::new());
        assert(self@ =~= old(self)@.insert(k, Seq::<V>::empty()));
    }

    /// Puts `v` at the end of the list of `k`.
    pub fn append(&mut self, k: K, v: V)
        ensures
            final(self)@ == old(self)@.insert(k, old(self).items(k).push(v)),
    {
        let mut l = self.list(&k);
        l.push(v);
        self.lists.insert(k, l);
        assert(self@ =~= old(self)@.insert(k, old(self).items(k).push(v)));
    }

    /// Rewrites the list of `k` without the first entry equal to `v`; the
    /// list stays as it is if it has no such entry.
    pub fn remove_first_match(&mut self, k: K, v: V)
        ensures
            final(self)@ == old(self)@.insert(k, old(self).items(k).remove_value(v)),
    {
        let mut l = self.list(&k);
        let ghost before = l@;
        let mut i: usize = 0;
        let mut found = false;
        while i < l.len() && !found
            invariant
                l@ == before,
                i <= l@.len(),
                forall|j: int| 0 <= j < i ==> l@[j] != v,
                found ==> i < l@.len() && l@[i as int] == v,
            decreases l@.len() - i + if found { 0int } else { 1int },
        {
            if l[i].same(&v) {
                found = true;
            } else {
                i += 1;
            }
        }
        proof {
            before.index_of_first_ensures(v);
        }
        if found {
            l.remove(i);
        }
        self.lists.insert(k, l);
        assert(self@ =~= old(self)@.insert(k, old(self).items(k).remove_value(v)));
    }
}

} // verus!
