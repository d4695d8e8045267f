//! A map from strings to values that remembers the order of its keys.

use vstd::prelude::*;

verus! {

/// Entries with pairwise distinct keys, kept in insertion order.
#[derive(Debug)]
pub struct StrMap<V> {
    entries: Vec<(String, V)>,
}

impl<V> StrMap<V> {
    #[verifier::type_invariant]
    spec fn keys_distinct(self) -> bool {
        forall|i: int, j: int|
            0 <= i < j < self.entries@.len() ==> #[trigger] self.entries@[i].0@
                != #[trigger] self.entries@[j].0@
    }

    /// The keys, in the order of the entries.
    pub closed spec fn key_list(&self) -> Seq<Seq<char>> {
        self.entries@.map_values(|e: (String, V)| e.0@)
    }

    spec fn position(&self, k: Seq<char>) -> int {
        choose|i: int| 0 <= i < self.entries@.len() && self.entries@[i].0@ == k
    }

    proof fn lemma_key_list(&self)
        requires
            self.keys_distinct(),
        ensures
            self.key_list().no_duplicates(),
            forall|k: Seq<char>| #[trigger] self@.dom().contains(k) <==> self.key_list().contains(k),
            self@.dom().finite(),
            self@.dom().len() == self.key_list().len(),
    {
        let kl = self.key_list();
        assert forall|i: int, j: int| 0 <= i < kl.len() && 0 <= j < kl.len() && i != j implies kl[i]
            != kl[j] by {
            if i < j {
                assert(self.entries@[i].0@ != self.entries@[j].0@);
            } else {
                assert(self.entries@[j].0@ != self.entries@[i].0@);
            }
        }
        assert(self@.dom() =~= kl.to_set());
        kl.unique_seq_to_set();
    }

    /// The entry at position `i` of the key list.
    proof fn lemma_entry_at(&self, i: int)
        requires
            self.keys_distinct(),
            0 <= i < self.key_list().len(),
        ensures
            self@.dom().contains(self.key_list()[i]),
            self@[self.key_list()[i]] == self.entries@[i].1,
    {
        let k = self.key_list()[i];
        assert(self.entries@[i].0@ == k);
        let p = self.position(k);
        if p != i {
            if p < i {
                assert(self.entries@[p].0@ != self.entries@[i].0@);
            } else {
                assert(self.entries@[i].0@ != self.entries@[p].0@);
            }
        }
    }
}

impl<V> View for StrMap<V> {
    type V = Map<Seq<char>, V>;

    closed spec fn view(&self) -> Map<Seq<char>, V> {
        Map::new(
            |k: Seq<char>| self.key_list().contains(k),
            |k: Seq<char>| self.entries@[self.position(k)].1,
        )
    }
}

impl<V> StrMap<V> {
    /// An empty map.
    pub fn new() -> (res: Self)
        ensures
            res@ == Map::<Seq<char>, V>::empty(),
            res.key_list() == Seq::<Seq<char>>::empty(),
    {
        let res = StrMap { entries: Vec::new() };
        assert(res.key_list() =~= Seq::<Seq<char>>::empty());
        assert(res@ =~= Map::<Seq<char>, V>::empty());
        res
    }

    /// Number of entries; the key list holds every key of the map exactly once.
    pub fn len(&self) -> (n: usize)
        ensures
            n == self.key_list().len(),
            self.key_list().no_duplicates(),
            forall|k: Seq<char>| #[trigger] self@.dom().contains(k) <==> self.key_list().contains(k),
            self@.dom().finite(),
            self@.dom().len() == n,
    {
        proof {
            use_type_invariant(self);
            self.lemma_key_list();
        }
        self.entries.len()
    }

    /// The key at position `i` of the key list.
    pub fn key_at(&self, i: usize) -> (k: &String)
        requires
            i < self.key_list().len(),
        ensures
            k@ == self.key_list()[i as int],
    {
        &self.entries[i].0
    }

    /// The value stored under the key at position `i` of the key list.
    pub fn value_at(&self, i: usize) -> (v: &V)
        requires
            i < self.key_list().len(),
        ensures
            *v == self@[self.key_list()[i as int]],
    {
        proof {
            use_type_invariant(self);
            self.lemma_entry_at(i as int);
        }
        &self.entries[i].1
    }

    fn find(&self, k: &str) -> (res: Option<usize>)
        ensures
            match res {
                Some(i) => i < self.entries@.len() && self.entries@[i as int].0@ == k@,
                None => !self.key_list().contains(k@),
            },
    {
        let n = self.entries.len();
        for i in 0..n
            invariant
                n == self.entries@.len(),
                forall|j: int| 0 <= j < i ==> self.entries@[j].0@ != k@,
        {
            if text_equal(self.entries[i].0.as_str(), k) {
                return Some(i);
            }
        }
        proof {
            if self.key_list().contains(k@) {
                let j = choose|j: int| 0 <= j < self.key_list().len() && self.key_list()[j] == k@;
                assert(self.entries@[j].0@ == k@);
            }
        }
        None
    }

    /// Whether the map has an entry for `k`.
    pub fn contains_key(&self, k: &str) -> (b: bool)
        ensures
            b == self@.dom().contains(k@),
    {
        match self.find(k) {
            Some(i) => {
                proof {
                    assert(self.key_list()[i as int] == k@);
                }
                true
            },
            None => false,
        }
    }

    /// The value stored under `k`, if any.
    pub fn get(&self, k: &str) -> (res: Option<&V>)
        ensures
            match res {
                Some(v) => self@.dom().contains(k@) && *v == self@[k@],
                None => !self@.dom().contains(k@),
            },
    {
        match self.find(k) {
            Some(i) => {
                proof {
                    use_type_invariant(self);
                    assert(self.key_list()[i as int] == k@);
                    self.lemma_entry_at(i as int);
                }
                Some(&self.entries[i].1)
            },
            None => None,
        }
    }

    /// Takes out the entry whose key is last in the key list.
    pub fn pop(&mut self) -> (res: Option<(String, V)>)
        ensures
            match res {
                Some((k, v)) => {
                    &&& old(self).key_list().len() > 0
                    &&& k@ == old(self).key_list().last()
                    &&& old(self)@.dom().contains(k@)
                    &&& old(self)@[k@] == v
                    &&& final(self)@ == old(self)@.remove(k@)
                    &&& final(self).key_list() == old(self).key_list().drop_last()
                },
                None => {
                    &&& old(self).key_list().len() == 0
                    &&& old(self)@ == Map::<Seq<char>, V>::empty()
                    &&& final(self)@ == old(self)@
                    &&& final(self).key_list() == old(self).key_list()
                },
            },
    {
        proof {
            use_type_invariant(&*self);
        }
        let ghost old_self = *self;
        let mut entries = Vec::new();
        std::mem::swap(&mut entries, &mut self.entries);
        let popped = entries.pop();
        proof {
            assert forall|a: int, b: int|
                0 <= a < b < entries@.len() implies #[trigger] entries@[a].0@
                    != #[trigger] entries@[b].0@ by {
                assert(old_self.entries@[a].0@ != old_self.entries@[b].0@);
            }
        }
        self.entries = entries;
        proof {
            let kl = self.key_list();
            let okl = old_self.key_list();
            if popped is Some {
                let k = (popped->0).0;
                let last = okl.len() - 1;
                assert(kl =~= okl.drop_last());
                assert(okl[last] == k@);
                old_self.lemma_entry_at(last);
                assert forall|a: Seq<char>| #[trigger] self@.dom().contains(a)
                    == old_self@.remove(k@).dom().contains(a) by {
                    if kl.contains(a) {
                        let j = choose|j: int| 0 <= j < kl.len() && kl[j] == a;
                        assert(okl[j] == a);
                        assert(old_self.entries@[j].0@ != old_self.entries@[last].0@);
                    }
                    if okl.contains(a) && a != k@ {
                        let j = choose|j: int| 0 <= j < okl.len() && okl[j] == a;
                        assert(j != last);
                        assert(kl[j] == a);
                    }
                }
                assert forall|a: Seq<char>| #[trigger] self@.dom().contains(a) implies self@[a]
                    == old_self@[a] by {
                    let j = self.position(a);
                    assert(0 <= j < self.entries@.len() && self.entries@[j].0@ == a) by {
                        let w = choose|w: int| 0 <= w < kl.len() && kl[w] == a;
                        assert(self.entries@[w].0@ == a);
                    }
                    assert(old_self.entries@[j] == self.entries@[j]);
                    old_self.lemma_entry_at(j);
                    assert(okl[j] == a);
                }
                assert(self@ =~= old_self@.remove(k@));
            } else {
                assert(old_self@ =~= Map::<Seq<char>, V>::empty());
                assert(kl =~= okl);
                assert(self@ =~= old_self@);
            }
        }
        popped
    }

    /// Stores `v` under `k`, replacing the value stored there before; a new key
    /// goes to the end of the key list.
    pub fn insert(&mut self, k: String, v: V)
        ensures
            final(self)@ == old(self)@.insert(k@, v),
            old(self)@.dom().contains(k@) ==> final(self).key_list() == old(self).key_list(),
            !old(self)@.dom().contains(k@) ==> final(self).key_list() == old(self).key_list().push(k@),
    {
        proof {
            use_type_invariant(&*self);
        }
        let ghost old_self = *self;
        let found = self.find(k.as_str());
        let mut entries = Vec::new();
        std::mem::swap(&mut entries, &mut self.entries);
        match found {
            Some(i) => {
                entries.set(i, (k, v));
            },
            None => {
                entries.push((k, v));
            },
        }
        proof {
            assert forall|a: int, b: int|
                0 <= a < b < entries@.len() implies #[trigger] entries@[a].0@
                    != #[trigger] entries@[b].0@ by {
                if found is Some {
                    let i = found->0 as int;
                    if a == i {
                        assert(old_self.entries@[i].0@ != old_self.entries@[b].0@);
                    } else if b == i {
                        assert(old_self.entries@[a].0@ != old_self.entries@[i].0@);
                    } else {
                        assert(old_self.entries@[a].0@ != old_self.entries@[b].0@);
                    }
                } else {
                    if b == entries@.len() - 1 {
                        assert(old_self.key_list()[a] == entries@[a].0@);
                    } else {
                        assert(old_self.entries@[a].0@ != old_self.entries@[b].0@);
                    }
                }
            }
        }
        self.entries = entries;
        proof {
            let kl = self.key_list();
            if found is Some {
                let i = found->0 as int;
                assert(kl =~= old_self.key_list());
            } else {
                assert(kl =~= old_self.key_list().push(k@));
            }
            assert forall|a: Seq<char>| #[trigger] self@.dom().contains(a) == old_self@.insert(k@, v).dom().contains(a) by {
                if a != k@ {
                    if kl.contains(a) {
                        let j = choose|j: int| 0 <= j < kl.len() && kl[j] == a;
                        if j < old_self.key_list().len() {
                            assert(old_self.key_list()[j] == a);
                        }
                    }
                    if old_self.key_list().contains(a) {
                        let j = choose|j: int| 0 <= j < old_self.key_list().len() && old_self.key_list()[j] == a;
                        assert(kl[j] == a);
                    }
                } else {
                    if found is Some {
                        assert(kl[found->0 as int] == k@);
                    } else {
                        assert(kl[kl.len() - 1] == k@);
                    }
                }
            }
            assert forall|a: Seq<char>| #[trigger] self@.dom().contains(a) implies self@[a] == old_self@.insert(k@, v)[a] by {
                let j = self.position(a);
                assert(0 <= j < self.entries@.len() && self.entries@[j].0@ == a) by {
                    let w = choose|w: int| 0 <= w < kl.len() && kl[w] == a;
                    assert(self.entries@[w].0@ == a);
                }
                if a != k@ {
                    assert(j < old_self.entries@.len());
                    assert(old_self.entries@[j] == self.entries@[j]);
                    old_self.lemma_entry_at(j);
                    assert(old_self.key_list()[j] == a);
                } else {
                    if found is Some {
                        let i = found->0 as int;
                        if j != i {
                            assert(self.entries@[j].0@ == self.entries@[i].0@);
                        }
                    } else {
                        let i = kl.len() - 1;
                        if j != i {
                            assert(old_self.key_list()[j] == a);
                        }
                    }
                }
            }
            assert(self@ =~= old_self@.insert(k@, v));
        }
    }
}

/// Whether two string slices hold the same characters.
pub fn text_equal(a: &str, b: &str) -> (res: bool)
    ensures
        res == (a@ == b@),
{
    let n = a.unicode_len();
    if n != b.unicode_len() {
        return false;
    }
    for i in 0..n
        invariant
            n == a@.len(),
            n == b@.len(),
            forall|j: int| 0 <= j < i ==> a@[j] == b@[j],
    {
        if a.get_char(i) != b.get_char(i) {
            return false;
        }
    }
    assert(a@ =~= b@);
    true
}

} // verus!
