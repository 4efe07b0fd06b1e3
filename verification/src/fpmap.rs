//! A small map keyed by 32-byte keys (identity fingerprints), kept as an association list in
//! insertion order. Peers are few, so a linear scan is cheap, and the order makes every walk over
//! the map deterministic.

use vstd::prelude::*;

use crate::bytes::bytes_eq;

verus! {

/// The map an association list denotes (later entries win, though keys are kept distinct).
pub open spec fn map_of<V>(s: Seq<([u8; 32], V)>) -> Map<Seq<u8>, V>
    decreases s.len(),
{
    if s.len() == 0 {
        Map::empty()
    } else {
        map_of(s.drop_last()).insert(s.last().0@, s.last().1)
    }
}

/// The keys of an association list, in order.
pub open spec fn keys_of<V>(s: Seq<([u8; 32], V)>) -> Seq<Seq<u8>> {
    Seq::new(s.len(), |i: int| s[i].0@)
}

/// The predicate "is not `k`".
pub open spec fn not_key(k: Seq<u8>) -> spec_fn(Seq<u8>) -> bool {
    |x: Seq<u8>| x != k
}

/// A key list without `k`.
pub open spec fn without(s: Seq<Seq<u8>>, k: Seq<u8>) -> Seq<Seq<u8>> {
    s.filter(not_key(k))
}

/// The views of a list of 32-byte arrays.
pub open spec fn views32(s: Seq<[u8; 32]>) -> Seq<Seq<u8>> {
    Seq::new(s.len(), |i: int| s[i]@)
}

/// No key occurs twice.
pub open spec fn distinct_keys<V>(s: Seq<([u8; 32], V)>) -> bool {
    forall|i: int, j: int| 0 <= i < j < s.len() ==> s[i].0@ != s[j].0@
}

proof fn lemma_map_of_contains<V>(s: Seq<([u8; 32], V)>, k: Seq<u8>)
    requires
        distinct_keys(s),
    ensures
        map_of(s).contains_key(k) <==> exists|i: int| 0 <= i < s.len() && s[i].0@ == k,
        forall|i: int| 0 <= i < s.len() && s[i].0@ == k ==> map_of(s)[k] == s[i].1,
        map_of(s).dom().finite(),
        map_of(s).dom().len() == s.len(),
    decreases s.len(),
{
    if s.len() > 0 {
        let t = s.drop_last();
        lemma_map_of_contains(t, k);
        lemma_map_of_contains(t, s.last().0@);
        assert forall|i: int| 0 <= i < t.len() implies t[i].0@ != s.last().0@ by {
            assert(s[i] == t[i]);
        }
        if exists|i: int| 0 <= i < s.len() && s[i].0@ == k {
            let i = choose|i: int| 0 <= i < s.len() && s[i].0@ == k;
            if i < s.len() - 1 {
                assert(t[i].0@ == k);
            }
        }
        if exists|i: int| 0 <= i < t.len() && t[i].0@ == k {
            let i = choose|i: int| 0 <= i < t.len() && t[i].0@ == k;
            assert(s[i].0@ == k);
        }
        assert forall|i: int| 0 <= i < s.len() && s[i].0@ == k implies map_of(s)[k] == s[i].1 by {
            if i < s.len() - 1 {
                assert(t[i] == s[i]);
            }
        }
    }
}

proof fn lemma_map_of_update<V>(s: Seq<([u8; 32], V)>, i: int, v: V)
    requires
        distinct_keys(s),
        0 <= i < s.len(),
    ensures
        map_of(s.update(i, (s[i].0, v))) == map_of(s).insert(s[i].0@, v),
        distinct_keys(s.update(i, (s[i].0, v))),
    decreases s.len(),
{
    let u = s.update(i, (s[i].0, v));
    if i == s.len() - 1 {
        assert(u.drop_last() =~= s.drop_last());
        assert(map_of(u) =~= map_of(s).insert(s[i].0@, v));
    } else {
        let t = s.drop_last();
        assert(u.drop_last() =~= t.update(i, (s[i].0, v)));
        lemma_map_of_update(t, i, v);
        assert(map_of(u) =~= map_of(s).insert(s[i].0@, v));
    }
}

proof fn lemma_map_of_remove<V>(s: Seq<([u8; 32], V)>, i: int)
    requires
        distinct_keys(s),
        0 <= i < s.len(),
    ensures
        map_of(s.remove(i)) == map_of(s).remove(s[i].0@),
        distinct_keys(s.remove(i)),
    decreases s.len(),
{
    let r = s.remove(i);
    let t = s.drop_last();
    if i == s.len() - 1 {
        assert(r =~= t);
        lemma_map_of_contains(t, s[i].0@);
        assert forall|j: int| 0 <= j < t.len() implies t[j].0@ != s[i].0@ by {
            assert(t[j] == s[j]);
        }
        assert(map_of(r) =~= map_of(s).remove(s[i].0@));
    } else {
        assert(r.drop_last() =~= t.remove(i));
        assert(r.last() == s.last());
        lemma_map_of_remove(t, i);
        assert(map_of(r) =~= map_of(s).remove(s[i].0@));
    }
}

/// A map from 32-byte keys to values.
pub struct FpMap<V> {
    entries: Vec<([u8; 32], V)>,
}

impl<V> FpMap<V> {
    pub closed spec fn view(&self) -> Map<Seq<u8>, V> {
        map_of(self.entries@)
    }

    pub closed spec fn wf(&self) -> bool {
        distinct_keys(self.entries@)
    }

    /// The keys, in insertion order.
    pub closed spec fn key_order(&self) -> Seq<Seq<u8>> {
        keys_of(self.entries@)
    }

    /// The map is finite, and its keys are exactly those `keys` lists, each once: `len` and
    /// `keys` agree.
    pub proof fn law_keys_cover_domain(&self)
        requires
            self.wf(),
        ensures
            self.view().dom().finite(),
            self.view().dom().len() == self.key_order().len(),
            forall|k: Seq<u8>| self.view().contains_key(k) <==> #[trigger] self.key_order().contains(k),
    {
        lemma_map_of_contains(self.entries@, Seq::empty());
        assert forall|k: Seq<u8>| self.view().contains_key(k) <==> #[trigger] self.key_order().contains(k) by {
            lemma_map_of_contains(self.entries@, k);
            if self.key_order().contains(k) {
                let i = choose|i: int| 0 <= i < self.key_order().len() && self.key_order()[i] == k;
                assert(self.entries@[i].0@ == k);
            }
            if self.view().contains_key(k) {
                let i = choose|i: int| 0 <= i < self.entries@.len() && self.entries@[i].0@ == k;
                assert(self.key_order()[i] == k);
            }
        }
    }

    pub fn new() -> (m: Self)
        ensures
            m.wf(),
            m.view() == Map::<Seq<u8>, V>::empty(),
    {
        FpMap { entries: Vec::new() }
    }

    fn index_of(&self, k: &[u8; 32]) -> (r: Option<usize>)
        requires
            self.wf(),
        ensures
            r matches Some(i) ==> i < self.entries@.len() && self.entries@[i as int].0@ == k@,
            r is None ==> !self.view().contains_key(k@),
            self.view().contains_key(k@) <==> r is Some,
    {
        let mut i: usize = 0;
        while i < self.entries.len()
            invariant
                i <= self.entries@.len(),
                self.wf(),
                forall|j: int| 0 <= j < i ==> self.entries@[j].0@ != k@,
            decreases self.entries@.len() - i,
        {
            if bytes_eq(&self.entries[i].0, k) {
                proof {
                    lemma_map_of_contains(self.entries@, k@);
                }
                return Some(i);
            }
            i = i + 1;
        }
        proof {
            lemma_map_of_contains(self.entries@, k@);
        }
        None
    }

    pub fn contains_key(&self, k: &[u8; 32]) -> (b: bool)
        requires
            self.wf(),
        ensures
            b == self.view().contains_key(k@),
    {
        self.index_of(k).is_some()
    }

    pub fn get(&self, k: &[u8; 32]) -> (r: Option<&V>)
        requires
            self.wf(),
        ensures
            r is Some <==> self.view().contains_key(k@),
            r matches Some(v) ==> *v == self.view()[k@],
    {
        match self.index_of(k) {
            Some(i) => {
                proof {
                    lemma_map_of_contains(self.entries@, k@);
                }
                Some(&self.entries[i].1)
            },
            None => None,
        }
    }

    /// Insert or replace. A new key goes last in the key order.
    pub fn insert(&mut self, k: [u8; 32], v: V)
        requires
            old(self).wf(),
        ensures
            final(self).wf(),
            final(self).view() == old(self).view().insert(k@, v),
            old(self).view().contains_key(k@) ==> final(self).key_order() == old(self).key_order(),
            !old(self).view().contains_key(k@) ==> final(self).key_order() == old(self).key_order().push(k@),
    {
        match self.index_of(&k) {
            Some(i) => {
                let ghost s = self.entries@;
                let ghost ko = self.key_order();
                self.entries.set(i, (k, v));
                proof {
                    let u = s.update(i as int, (s[i as int].0, v));
                    lemma_map_of_update(s, i as int, v);
                    assert forall|j: int| 0 <= j < u.len() implies u[j].0@ == self.entries@[j].0@
                        && u[j].1 == self.entries@[j].1 by {
                        if j == i {
                            assert(self.entries@[j] == (k, v));
                        }
                    }
                    lemma_map_eq_on_views(u, self.entries@);
                    assert forall|a: int, b: int| 0 <= a < b < self.entries@.len() implies self.entries@[a].0@
                        != self.entries@[b].0@ by {
                        assert(u[a].0@ == self.entries@[a].0@);
                        assert(u[b].0@ == self.entries@[b].0@);
                    }
                    assert(self.key_order() =~= ko);
                }
            },
            None => {
                let ghost s = self.entries@;
                self.entries.push((k, v));
                proof {
                    assert(self.entries@.drop_last() =~= s);
                    assert forall|a: int, b: int| 0 <= a < b < self.entries@.len() implies self.entries@[a].0@
                        != self.entries@[b].0@ by {
                        if b == s.len() {
                            lemma_map_of_contains(s, k@);
                            assert(self.entries@[a] == s[a]);
                        }
                    }
                    assert(self.key_order() =~= old(self).key_order().push(k@));
                }
            },
        }
    }

    pub fn remove(&mut self, k: &[u8; 32]) -> (r: Option<V>)
        requires
            old(self).wf(),
        ensures
            final(self).wf(),
            final(self).view() == old(self).view().remove(k@),
            r is Some <==> old(self).view().contains_key(k@),
            r matches Some(v) ==> v == old(self).view()[k@],
            final(self).key_order() == without(old(self).key_order(), k@),
    {
        match self.index_of(k) {
            Some(i) => {
                let ghost s = self.entries@;
                proof {
                    lemma_map_of_contains(s, k@);
                    lemma_map_of_remove(s, i as int);
                }
                let (_, v) = self.entries.remove(i);
                proof {
                    lemma_key_order_remove(s, i as int, k@);
                }
                Some(v)
            },
            None => {
                proof {
                    lemma_key_order_absent(self.entries@, k@);
                }
                None
            },
        }
    }

    pub fn clear(&mut self)
        ensures
            final(self).wf(),
            final(self).view() == Map::<Seq<u8>, V>::empty(),
            final(self).key_order() == Seq::<Seq<u8>>::empty(),
    {
        self.entries.clear();
        assert(self.key_order() =~= Seq::<Seq<u8>>::empty());
    }

    pub fn len(&self) -> (n: usize)
        requires
            self.wf(),
        ensures
            n == self.view().dom().len(),
    {
        proof {
            lemma_map_of_contains(self.entries@, Seq::empty());
        }
        self.entries.len()
    }

    /// Every key, in insertion order.
    pub fn keys(&self) -> (ks: Vec<[u8; 32]>)
        requires
            self.wf(),
        ensures
            views32(ks@) == self.key_order(),
    {
        let mut ks: Vec<[u8; 32]> = Vec::new();
        let mut i: usize = 0;
        while i < self.entries.len()
            invariant
                i <= self.entries@.len(),
                views32(ks@) == self.key_order().subrange(0, i as int),
            decreases self.entries@.len() - i,
        {
            let ghost before = ks@;
            ks.push(self.entries[i].0);
            assert(ks@ == before.push(self.entries@[i as int].0));
            assert(views32(ks@) =~= views32(before).push(self.entries@[i as int].0@));
            assert(self.key_order().subrange(0, i + 1) =~= self.key_order().subrange(0, i as int).push(
                self.entries@[i as int].0@,
            ));
            i = i + 1;
        }
        assert(self.key_order().subrange(0, i as int) =~= self.key_order());
        ks
    }
}

proof fn lemma_map_eq_on_views<V>(a: Seq<([u8; 32], V)>, b: Seq<([u8; 32], V)>)
    requires
        a.len() == b.len(),
        forall|i: int| 0 <= i < a.len() ==> a[i].0@ == b[i].0@ && a[i].1 == b[i].1,
    ensures
        map_of(a) == map_of(b),
    decreases a.len(),
{
    if a.len() > 0 {
        lemma_map_eq_on_views(a.drop_last(), b.drop_last());
    }
}

proof fn lemma_key_order_remove<V>(s: Seq<([u8; 32], V)>, i: int, k: Seq<u8>)
    requires
        distinct_keys(s),
        0 <= i < s.len(),
        s[i].0@ == k,
    ensures
        keys_of(s.remove(i)) == without(keys_of(s), k),
    decreases s.len(),
{
    let ko = keys_of(s);
    let t = s.drop_last();
    assert(ko =~= keys_of(t).push(s.last().0@));
    keys_of(t).lemma_filter_push(s.last().0@, not_key(k));
    if i == s.len() - 1 {
        assert(s.remove(i) =~= t);
        assert forall|j: int| 0 <= j < keys_of(t).len() implies keys_of(t)[j] != k by {
            assert(t[j] == s[j]);
        }
        lemma_filter_all(keys_of(t), k);
    } else {
        lemma_key_order_remove(t, i, k);
        assert(s.remove(i) =~= t.remove(i).push(s.last()));
        assert(keys_of(s.remove(i)) =~= keys_of(t.remove(i)).push(s.last().0@));
        assert(s.last().0@ != k);
    }
}

proof fn lemma_filter_all(s: Seq<Seq<u8>>, k: Seq<u8>)
    requires
        forall|j: int| 0 <= j < s.len() ==> s[j] != k,
    ensures
        without(s, k) == s,
    decreases s.len(),
{
    if s.len() > 0 {
        lemma_filter_all(s.drop_last(), k);
        assert(s.drop_last().push(s.last()) =~= s);
        s.drop_last().lemma_filter_push(s.last(), not_key(k));
    }
}

proof fn lemma_key_order_absent<V>(s: Seq<([u8; 32], V)>, k: Seq<u8>)
    requires
        distinct_keys(s),
        !map_of(s).contains_key(k),
    ensures
        keys_of(s) == without(keys_of(s), k),
{
    lemma_map_of_contains(s, k);
    let ko = keys_of(s);
    assert forall|j: int| 0 <= j < ko.len() implies ko[j] != k by {
        assert(ko[j] == s[j].0@);
    }
    lemma_filter_all(ko, k);
}

} // verus!
