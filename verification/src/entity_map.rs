//! Maps keyed by an entity's owner and id, walked in the order of the pair
//! `(owner, id)`: by owner, then by id.

use vstd::prelude::*;
use crate::name_map::NameMap;

verus! {

/// An entity key taken by its view: `(owner, id)`.
pub type KeyView = (Seq<char>, Seq<char>);

/// A map from `(owner, id)` to values, stored as one sorted map of ids per owner.
#[derive(Debug, PartialEq)]
pub struct EntityMap<V> {
    owners: NameMap<NameMap<V>>,
}

impl<V> EntityMap<V> {
    /// The contents as a map from `(owner, id)`.
    pub closed spec fn view(&self) -> Map<KeyView, V> {
        Map::new(
            |p: KeyView| self.owners@.contains_key(p.0) && self.owners@[p.0]@.contains_key(p.1),
            |p: KeyView| self.owners@[p.0]@[p.1],
        )
    }

    /// The ids of `owner`, as a sorted map to their values.
    pub closed spec fn of_owner(&self, owner: Seq<char>) -> Option<NameMap<V>> {
        if self.owners@.contains_key(owner) {
            Some(self.owners@[owner])
        } else {
            None
        }
    }

    /// The owners in increasing order (some may have no ids).
    pub closed spec fn owner_seq(&self) -> Seq<Seq<char>> {
        self.owners.key_seq()
    }

    /// The per-owner map at position `i` of `owner_seq`.
    pub closed spec fn inner_at_spec(&self, i: int) -> NameMap<V> {
        self.owners.entry_seq()[i].1
    }

    /// The owners are kept sorted (always true of a value built by this API).
    pub closed spec fn inv(&self) -> bool {
        self.owners.wf()
    }

    /// How `of_owner`, `owner_seq` and `inner_at_spec` describe the view.
    pub proof fn lemma_layout(&self)
        requires
            self.inv(),
        ensures
            forall|o: Seq<char>, id: Seq<char>|
                #![trigger self@.contains_key((o, id))]
                self@.contains_key((o, id)) <==> (self.of_owner(o) is Some && self.of_owner(o).unwrap()@.contains_key(id)),
            forall|o: Seq<char>, id: Seq<char>|
                #![trigger self@[(o, id)]]
                self@.contains_key((o, id)) ==> self@[(o, id)] == self.of_owner(o).unwrap()@[id],
            forall|o: Seq<char>| #[trigger] self.owner_seq().contains(o) <==> self.of_owner(o) is Some,
            forall|i: int| 0 <= i < self.owner_seq().len() ==>
                self.of_owner(#[trigger] self.owner_seq()[i]) == Some(self.inner_at_spec(i)),
            crate::name_map::keys_sorted(self.owner_seq()),
    {
        assert forall|i: int| 0 <= i < self.owner_seq().len() implies
            self.of_owner(#[trigger] self.owner_seq()[i]) == Some(self.inner_at_spec(i)) by {
            self.owners.lemma_unique(i);
        }
    }

    /// An empty map.
    pub fn new() -> (r: Self)
        ensures
            r.inv(),
            r@ == Map::<KeyView, V>::empty(),
    {
        let r = EntityMap { owners: NameMap::new() };
        proof {
            use_type_invariant(&r.owners);
        }
        assert(r@ =~= Map::<KeyView, V>::empty());
        r
    }

    /// The value under `(owner, id)`, if any.
    pub fn get(&self, owner: &str, id: &str) -> (r: Option<&V>)
        ensures
            match r {
                Some(v) => self@.contains_key((owner@, id@)) && *v == self@[(owner@, id@)],
                None => !self@.contains_key((owner@, id@)),
            },
    {
        match self.owners.get(owner) {
            Some(inner) => inner.get(id),
            None => None,
        }
    }

    /// Whether `(owner, id)` has a value.
    pub fn contains_key(&self, owner: &str, id: &str) -> (r: bool)
        ensures
            r == self@.contains_key((owner@, id@)),
    {
        match self.owners.get(owner) {
            Some(inner) => inner.contains_key(id),
            None => false,
        }
    }

    /// The ids of `owner` with their values.
    pub fn owner_entries(&self, owner: &str) -> (r: Option<&NameMap<V>>)
        ensures
            match r {
                Some(m) => self.of_owner(owner@) == Some(*m),
                None => self.of_owner(owner@) is None,
            },
    {
        self.owners.get(owner)
    }

    /// The number of owners present (some may have no ids).
    pub fn owner_count(&self) -> (r: usize)
        ensures
            r == self.owner_seq().len(),
    {
        proof {
            use_type_invariant(&self.owners);
        }
        self.owners.len()
    }

    /// The owner at position `i`.
    pub fn owner_at(&self, i: usize) -> (r: &String)
        requires
            i < self.owner_seq().len(),
        ensures
            r@ == self.owner_seq()[i as int],
    {
        self.owners.key_at(i)
    }

    /// The ids and values of the owner at position `i`.
    pub fn inner_at(&self, i: usize) -> (r: &NameMap<V>)
        requires
            i < self.owner_seq().len(),
        ensures
            *r == self.inner_at_spec(i as int),
    {
        self.owners.value_at(i)
    }

    /// Sets the value under `(owner, id)`.
    pub fn insert(&mut self, owner: &str, id: String, v: V)
        ensures
            final(self).inv(),
            final(self)@ == old(self)@.insert((owner@, id@), v),
    {
        let ghost idv = id@;
        let mut inner = match self.owners.remove(owner) {
            Some(inner) => inner,
            None => NameMap::new(),
        };
        inner.insert(id, v);
        self.owners.insert(owner.to_owned(), inner);
        proof {
            use_type_invariant(&self.owners);
            assert(self@ =~= old(self)@.insert((owner@, idv), v));
        }
    }

    /// Removes the value under `(owner, id)`, returning it.
    pub fn remove(&mut self, owner: &str, id: &str) -> (r: Option<V>)
        ensures
            final(self).inv(),
            final(self)@ == old(self)@.remove((owner@, id@)),
            match r {
                Some(v) => old(self)@.contains_key((owner@, id@)) && v == old(self)@[(owner@, id@)],
                None => !old(self)@.contains_key((owner@, id@)),
            },
    {
        match self.owners.remove(owner) {
            Some(mut inner) => {
                let r = inner.remove(id);
                self.owners.insert(owner.to_owned(), inner);
                proof {
                    use_type_invariant(&self.owners);
                    assert(self@ =~= old(self)@.remove((owner@, id@)));
                }
                r
            },
            None => {
                proof {
                    use_type_invariant(&self.owners);
                    assert(self@ =~= old(self)@.remove((owner@, id@)));
                }
                None
            },
        }
    }

    /// Removes every entry of `owner`.
    pub fn remove_owner(&mut self, owner: &str)
        ensures
            final(self).inv(),
            final(self)@ == old(self)@.restrict(
                old(self)@.dom().filter(|p: KeyView| p.0 != owner@),
            ),
    {
        self.owners.remove(owner);
        proof {
            use_type_invariant(&self.owners);
            assert(self@ =~= old(self)@.restrict(old(self)@.dom().filter(|p: KeyView| p.0 != owner@)));
        }
    }
}

} // verus!
