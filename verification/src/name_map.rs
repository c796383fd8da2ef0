//! A map from string keys to values, kept sorted by key in Rust's order on
//! `str`, so that walking it visits keys in the same order as a `BTreeMap`.

use vstd::prelude::*;
use crate::order::{compare_keys, key_lt, lemma_key_order, KeyOrder};

verus! {

/// Whether the keys are strictly increasing.
pub open spec fn keys_sorted(s: Seq<Seq<char>>) -> bool {
    forall|i: int, j: int| 0 <= i < j < s.len() ==> key_lt(#[trigger] s[i], #[trigger] s[j])
}

/// The position of `k` in `s` (meaningful when `s` contains `k`).
pub open spec fn index_of_key(s: Seq<Seq<char>>, k: Seq<char>) -> int {
    choose|i: int| 0 <= i < s.len() && s[i] == k
}

/// Entries kept sorted by key; the storage under [`NameMap`].
#[derive(Debug, PartialEq)]
pub struct SortedVec<V> {
    entries: Vec<(String, V)>,
}

impl<V> SortedVec<V> {
    /// The entries in key order, each key taken by its view.
    pub closed spec fn entry_seq(&self) -> Seq<(Seq<char>, V)> {
        self.entries@.map_values(|e: (String, V)| (e.0@, e.1))
    }

    /// The keys in increasing order.
    pub open spec fn key_seq(&self) -> Seq<Seq<char>> {
        self.entry_seq().map_values(|e: (Seq<char>, V)| e.0)
    }

    /// The map's invariant: keys strictly increasing.
    pub open spec fn wf(&self) -> bool {
        keys_sorted(self.key_seq())
    }

    /// The contents as a mathematical map.
    pub open spec fn view(&self) -> Map<Seq<char>, V> {
        Map::new(
            |k: Seq<char>| self.key_seq().contains(k),
            |k: Seq<char>| self.entry_seq()[index_of_key(self.key_seq(), k)].1,
        )
    }

    /// In a well-formed map each key stands at exactly one position.
    pub proof fn lemma_unique(&self, i: int)
        requires
            self.wf(),
            0 <= i < self.key_seq().len(),
        ensures
            index_of_key(self.key_seq(), self.key_seq()[i]) == i,
            self.view().contains_key(self.key_seq()[i]),
            self.view()[self.key_seq()[i]] == self.entry_seq()[i].1,
    {
        let s = self.key_seq();
        assert(s.contains(s[i]));
        let j = index_of_key(s, s[i]);
        if j != i {
            lemma_key_order(s[i], s[j], s[i]);
            if j < i {
                assert(key_lt(s[j], s[i]));
            } else {
                assert(key_lt(s[i], s[j]));
            }
        }
    }

    /// An empty map.
    pub fn new() -> (r: Self)
        ensures
            r.wf(),
            r.entry_seq().len() == 0,
            r@ == Map::<Seq<char>, V>::empty(),
    {
        let r = SortedVec { entries: Vec::new() };
        assert(r@ =~= Map::<Seq<char>, V>::empty());
        r
    }

    /// The number of entries.
    pub fn len(&self) -> (r: usize)
        ensures
            r == self.entry_seq().len(),
    {
        self.entries.len()
    }

    /// Whether the map has no entries.
    pub fn is_empty(&self) -> (r: bool)
        ensures
            r == (self.entry_seq().len() == 0),
    {
        self.entries.len() == 0
    }

    /// The key at position `i`.
    pub fn key_at(&self, i: usize) -> (r: &String)
        requires
            i < self.entry_seq().len(),
        ensures
            r@ == self.key_seq()[i as int],
    {
        &self.entries[i].0
    }

    /// The value at position `i`.
    pub fn value_at(&self, i: usize) -> (r: &V)
        requires
            i < self.entry_seq().len(),
        ensures
            *r == self.entry_seq()[i as int].1,
    {
        &self.entries[i].1
    }

    /// Finds `k`: `Ok` with its position, or `Err` with the position where it
    /// would be inserted.
    pub fn find(&self, k: &str) -> (r: Result<usize, usize>)
        requires
            self.wf(),
        ensures
            match r {
                Ok(i) => i < self.key_seq().len() && self.key_seq()[i as int] == k@,
                Err(i) => {
                    &&& i <= self.key_seq().len()
                    &&& !self@.contains_key(k@)
                    &&& forall|j: int| 0 <= j < i ==> key_lt(#[trigger] self.key_seq()[j], k@)
                    &&& forall|j: int| i <= j < self.key_seq().len() ==> key_lt(k@, #[trigger] self.key_seq()[j])
                },
            },
    {
        let n = self.entries.len();
        let mut i: usize = 0;
        while i < n
            invariant
                n == self.key_seq().len(),
                self.wf(),
                i <= n,
                forall|j: int| 0 <= j < i ==> key_lt(#[trigger] self.key_seq()[j], k@),
            decreases n - i,
        {
            let c = compare_keys(self.entries[i].0.as_str(), k);
            assert(self.key_seq()[i as int] == self.entries@[i as int].0@);
            match c {
                KeyOrder::Less => {
                    i = i + 1;
                },
                KeyOrder::Equal => {
                    return Ok(i);
                },
                KeyOrder::Greater => {
                    proof {
                        let s = self.key_seq();
                        assert forall|j: int| i <= j < s.len() implies key_lt(k@, #[trigger] s[j]) by {
                            if j > i {
                                lemma_key_order(k@, s[i as int], s[j]);
                            }
                        }
                        if self@.contains_key(k@) {
                            let p = index_of_key(s, k@);
                            lemma_key_order(k@, k@, k@);
                            if p < i {
                                assert(key_lt(s[p], k@));
                            } else {
                                assert(key_lt(k@, s[p]));
                            }
                        }
                    }
                    return Err(i);
                },
            }
        }
        proof {
            let s = self.key_seq();
            if self@.contains_key(k@) {
                let p = index_of_key(s, k@);
                lemma_key_order(k@, k@, k@);
                assert(key_lt(s[p], k@));
            }
        }
        Err(i)
    }

    /// The value under `k`, if any.
    pub fn get(&self, k: &str) -> (r: Option<&V>)
        requires
            self.wf(),
        ensures
            match r {
                Some(v) => self@.contains_key(k@) && *v == self@[k@],
                None => !self@.contains_key(k@),
            },
    {
        match self.find(k) {
            Ok(i) => {
                proof {
                    self.lemma_unique(i as int);
                }
                Some(&self.entries[i].1)
            },
            Err(_) => None,
        }
    }

    /// Whether `k` has a value.
    pub fn contains_key(&self, k: &str) -> (r: bool)
        requires
            self.wf(),
        ensures
            r == self@.contains_key(k@),
    {
        match self.find(k) {
            Ok(i) => {
                proof {
                    self.lemma_unique(i as int);
                }
                true
            },
            Err(_) => false,
        }
    }

    /// Sets the value under `k`, replacing any earlier one.
    pub fn insert(&mut self, k: String, v: V)
        requires
            old(self).wf(),
        ensures
            final(self).wf(),
            final(self)@ == old(self)@.insert(k@, v),
    {
        let ghost old_entries = self.entry_seq();
        match self.find(k.as_str()) {
            Ok(i) => {
                proof {
                    self.lemma_unique(i as int);
                }
                self.entries.set(i, (k, v));
                proof {
                    let ghost ks = k@;
                    assert(self.entry_seq() =~= old_entries.update(i as int, (ks, v)));
                    assert(self.key_seq() =~= old(self).key_seq());
                    assert forall|q: Seq<char>| #![auto] self@.contains_key(q) implies self@[q] == old(self)@.insert(k@, v)[q] by {
                        let p = index_of_key(self.key_seq(), q);
                        self.lemma_unique(p);
                        old(self).lemma_unique(p);
                    }
                    assert(self@ =~= old(self)@.insert(k@, v));
                }
            },
            Err(i) => {
                let ghost ks = k@;
                self.entries.insert(i, (k, v));
                proof {
                    assert(self.entry_seq() =~= old_entries.insert(i as int, (ks, v)));
                    let s = self.key_seq();
                    let os = old(self).key_seq();
                    assert(s =~= os.insert(i as int, ks));
                    assert forall|a: int, b: int| 0 <= a < b < s.len() implies key_lt(#[trigger] s[a], #[trigger] s[b]) by {
                        if a < i && b > i {
                            lemma_key_order(os[a], ks, os[b - 1]);
                        }
                    }
                    assert forall|q: Seq<char>| #![auto] self@.contains_key(q) implies self@[q] == old(self)@.insert(k@, v)[q] by {
                        let p = index_of_key(s, q);
                        self.lemma_unique(p);
                        if p < i {
                            old(self).lemma_unique(p);
                        } else if p > i {
                            old(self).lemma_unique(p - 1);
                        }
                    }
                    assert forall|q: Seq<char>| old(self)@.insert(k@, v).contains_key(q) implies #[trigger] self@.contains_key(q) by {
                        if q != ks {
                            let p = index_of_key(os, q);
                            if p < i {
                                assert(s[p] == q);
                            } else {
                                assert(s[p + 1] == q);
                            }
                        } else {
                            assert(s[i as int] == q);
                        }
                    }
                    assert(self@ =~= old(self)@.insert(k@, v));
                }
            },
        }
    }

    /// Appends an entry whose key is greater than every key present.
    pub fn push_last(&mut self, k: String, v: V)
        requires
            old(self).wf(),
            old(self).key_seq().len() == 0 || key_lt(old(self).key_seq().last(), k@),
        ensures
            final(self).wf(),
            final(self).entry_seq() == old(self).entry_seq().push((k@, v)),
    {
        let ghost ks = k@;
        let ghost old_entries = self.entry_seq();
        self.entries.push((k, v));
        proof {
            assert(self.entry_seq() =~= old_entries.push((ks, v)));
            let s = self.key_seq();
            let os = old(self).key_seq();
            assert(s =~= os.push(ks));
            assert forall|a: int, b: int| 0 <= a < b < s.len() implies key_lt(#[trigger] s[a], #[trigger] s[b]) by {
                if b == os.len() && a < os.len() - 1 {
                    lemma_key_order(os[a], os.last(), ks);
                }
            }
        }
    }

    /// Removes the value under `k`, returning it.
    pub fn remove(&mut self, k: &str) -> (r: Option<V>)
        requires
            old(self).wf(),
        ensures
            final(self).wf(),
            final(self)@ == old(self)@.remove(k@),
            match r {
                Some(v) => old(self)@.contains_key(k@) && v == old(self)@[k@],
                None => !old(self)@.contains_key(k@),
            },
    {
        let ghost old_entries = self.entry_seq();
        match self.find(k) {
            Ok(i) => {
                proof {
                    self.lemma_unique(i as int);
                }
                let (_, v) = self.entries.remove(i);
                proof {
                    assert(self.entry_seq() =~= old_entries.remove(i as int));
                    let s = self.key_seq();
                    let os = old(self).key_seq();
                    assert(s =~= os.remove(i as int));
                    assert forall|a: int, b: int| 0 <= a < b < s.len() implies key_lt(#[trigger] s[a], #[trigger] s[b]) by {
                        if a < i && b >= i {
                            assert(s[a] == os[a]);
                            assert(s[b] == os[b + 1]);
                        } else if a >= i {
                            assert(s[a] == os[a + 1]);
                            assert(s[b] == os[b + 1]);
                        }
                    }
                    assert forall|q: Seq<char>| #[trigger] self@.contains_key(q) implies old(self)@.remove(k@).contains_key(q) && self@[q] == old(self)@.remove(k@)[q] by {
                        let p = index_of_key(s, q);
                        self.lemma_unique(p);
                        lemma_key_order(q, q, q);
                        if p < i {
                            assert(os[p] == q);
                            assert(key_lt(os[p], os[i as int]));
                            old(self).lemma_unique(p);
                        } else {
                            assert(os[p + 1] == q);
                            assert(key_lt(os[i as int], os[p + 1]));
                            old(self).lemma_unique(p + 1);
                        }
                    }
                    assert forall|q: Seq<char>| old(self)@.remove(k@).contains_key(q) implies #[trigger] self@.contains_key(q) by {
                        let p = index_of_key(os, q);
                        if p < i {
                            assert(s[p] == q);
                        } else {
                            assert(p != i);
                            assert(s[p - 1] == q);
                        }
                    }
                    assert(self@.dom() =~= old(self)@.remove(k@).dom());
                    assert(self@ =~= old(self)@.remove(k@));
                }
                Some(v)
            },
            Err(_) => {
                assert(self@ =~= old(self)@.remove(k@));
                None
            },
        }
    }
}

} // verus!

verus! {

impl<V> SortedVec<V> {
    /// A stored value is structurally smaller than the map that holds it.
    pub proof fn lemma_value_decreases(&self, k: Seq<char>)
        requires
            self@.contains_key(k),
        ensures
            decreases_to!(*self => self@[k]),
    {
        let s = self.key_seq();
        let i = index_of_key(s, k);
        assert(self@[k] == self.entries@[i].1);
        assert(decreases_to!(*self => self.entries));
        assert(decreases_to!(self.entries => self.entries@));
        assert(decreases_to!(self.entries@ => self.entries@[i]));
        assert(decreases_to!(self.entries@[i] => self.entries@[i].1));
    }
}

} // verus!

verus! {

/// A map from `String` keys to values, sorted by key in Rust's order on
/// `str` (the order in which a `BTreeMap<String, _>` is walked).
#[derive(Debug, PartialEq)]
pub struct NameMap<V> {
    inner: SortedVec<V>,
}

impl<V> NameMap<V> {
    /// Keys are strictly increasing.
    #[verifier::type_invariant]
    pub open spec fn wf(&self) -> bool {
        keys_sorted(self.key_seq())
    }

    /// The entries in key order, each key taken by its view.
    pub closed spec fn entry_seq(&self) -> Seq<(Seq<char>, V)> {
        self.inner.entry_seq()
    }

    /// The keys in increasing order.
    pub open spec fn key_seq(&self) -> Seq<Seq<char>> {
        self.entry_seq().map_values(|e: (Seq<char>, V)| e.0)
    }

    /// The contents as a mathematical map.
    pub open spec fn view(&self) -> Map<Seq<char>, V> {
        Map::new(
            |k: Seq<char>| self.key_seq().contains(k),
            |k: Seq<char>| self.entry_seq()[index_of_key(self.key_seq(), k)].1,
        )
    }

    proof fn lemma_same_as_inner(&self)
        ensures
            self.key_seq() == self.inner.key_seq(),
            self@ == self.inner@,
            self.wf() == self.inner.wf(),
    {
        assert(self.key_seq() =~= self.inner.key_seq());
        assert(self@ =~= self.inner@);
    }

    /// In a well-formed map each key stands at exactly one position.
    pub proof fn lemma_unique(&self, i: int)
        requires
            self.wf(),
            0 <= i < self.key_seq().len(),
        ensures
            index_of_key(self.key_seq(), self.key_seq()[i]) == i,
            self.view().contains_key(self.key_seq()[i]),
            self.view()[self.key_seq()[i]] == self.entry_seq()[i].1,
    {
        self.lemma_same_as_inner();
        self.inner.lemma_unique(i);
    }

    /// A stored value is structurally smaller than the map that holds it.
    pub proof fn lemma_value_decreases(&self, k: Seq<char>)
        requires
            self@.contains_key(k),
        ensures
            decreases_to!(*self => self@[k]),
    {
        self.lemma_same_as_inner();
        assert(decreases_to!(*self => self.inner));
        self.inner.lemma_value_decreases(k);
    }

    /// An empty map.
    pub fn new() -> (r: Self)
        ensures
            r.entry_seq().len() == 0,
            r@ == Map::<Seq<char>, V>::empty(),
    {
        let r = NameMap { inner: SortedVec::new() };
        proof {
            r.lemma_same_as_inner();
        }
        r
    }

    /// The number of entries.
    pub fn len(&self) -> (r: usize)
        ensures
            r == self.entry_seq().len(),
            r == self@.len(),
    {
        proof {
            use_type_invariant(self);
            self.lemma_len();
        }
        self.inner.len()
    }

    /// The number of entries is the size of the map.
    pub proof fn lemma_len(&self)
        requires
            self.wf(),
        ensures
            self@.dom().finite(),
            self@.len() == self.entry_seq().len(),
            self@.dom() == self.key_seq().to_set(),
    {
        let s = self.key_seq();
        assert(self@.dom() =~= s.to_set());
        assert forall|i: int, j: int| 0 <= i < s.len() && 0 <= j < s.len() && i != j implies s[i] != s[j] by {
            crate::order::lemma_key_order(s[i], s[j], s[i]);
        }
        assert(s.no_duplicates());
        s.unique_seq_to_set();
    }

    /// Whether the map has no entries.
    pub fn is_empty(&self) -> (r: bool)
        ensures
            r == (self.entry_seq().len() == 0),
    {
        self.inner.is_empty()
    }

    /// The key at position `i`.
    pub fn key_at(&self, i: usize) -> (r: &String)
        requires
            i < self.entry_seq().len(),
        ensures
            r@ == self.key_seq()[i as int],
    {
        proof {
            self.lemma_same_as_inner();
        }
        self.inner.key_at(i)
    }

    /// The value at position `i`.
    pub fn value_at(&self, i: usize) -> (r: &V)
        requires
            i < self.entry_seq().len(),
        ensures
            *r == self.entry_seq()[i as int].1,
    {
        self.inner.value_at(i)
    }

    /// The value under `k`, if any.
    pub fn get(&self, k: &str) -> (r: Option<&V>)
        ensures
            match r {
                Some(v) => self@.contains_key(k@) && *v == self@[k@],
                None => !self@.contains_key(k@),
            },
    {
        proof {
            use_type_invariant(self);
            self.lemma_same_as_inner();
        }
        self.inner.get(k)
    }

    /// Whether `k` has a value.
    pub fn contains_key(&self, k: &str) -> (r: bool)
        ensures
            r == self@.contains_key(k@),
    {
        proof {
            use_type_invariant(self);
            self.lemma_same_as_inner();
        }
        self.inner.contains_key(k)
    }

    /// Sets the value under `k`, replacing any earlier one.
    pub fn insert(&mut self, k: String, v: V)
        ensures
            final(self)@ == old(self)@.insert(k@, v),
    {
        proof {
            use_type_invariant(&*self);
            self.lemma_same_as_inner();
        }
        let mut inner = SortedVec::new();
        std::mem::swap(&mut inner, &mut self.inner);
        inner.insert(k, v);
        self.inner = inner;
        proof {
            self.lemma_same_as_inner();
        }
    }

    /// Removes the value under `k`, returning it.
    pub fn remove(&mut self, k: &str) -> (r: Option<V>)
        ensures
            final(self)@ == old(self)@.remove(k@),
            match r {
                Some(v) => old(self)@.contains_key(k@) && v == old(self)@[k@],
                None => !old(self)@.contains_key(k@),
            },
    {
        proof {
            use_type_invariant(&*self);
            self.lemma_same_as_inner();
        }
        let mut inner = SortedVec::new();
        std::mem::swap(&mut inner, &mut self.inner);
        let r = inner.remove(k);
        self.inner = inner;
        proof {
            self.lemma_same_as_inner();
        }
        r
    }

    /// Appends an entry whose key is greater than every key present.
    pub fn push_last(&mut self, k: String, v: V)
        requires
            old(self).key_seq().len() == 0 || key_lt(old(self).key_seq().last(), k@),
        ensures
            final(self).entry_seq() == old(self).entry_seq().push((k@, v)),
    {
        proof {
            use_type_invariant(&*self);
            self.lemma_same_as_inner();
        }
        let mut inner = SortedVec::new();
        std::mem::swap(&mut inner, &mut self.inner);
        inner.push_last(k, v);
        self.inner = inner;
        proof {
            self.lemma_same_as_inner();
        }
    }
}

} // verus!
