//! Merkle proofs: the inner nodes that a set of reads has touched.

use crate::slots::{
    distinct, holds, lemma_held_slot, lemma_slot_found, lemma_store_len, lemma_store_push,
    lemma_store_swap_remove, lemma_store_update, slot_of, store_of,
};
use crate::value::{bytes_eq, Value, ValueView};
use vstd::prelude::*;
use vstd::std_specs::cmp::PartialEqSpecImpl;

verus! {

/// The keys that a list of entries holds, in the order of the list.
pub open spec fn key_views(items: Seq<(Vec<u8>, Value, Value)>) -> Seq<Seq<u8>> {
    Seq::new(items.len(), |i: int| items[i].0@)
}

/// The pairs that a list of entries holds, in the order of the list.
pub open spec fn pair_views(items: Seq<(Vec<u8>, Value, Value)>) -> Seq<(ValueView, ValueView)> {
    Seq::new(items.len(), |i: int| (items[i].1@, items[i].2@))
}

/// A set of keys.
#[derive(Debug)]
pub struct KeySet {
    keys: Vec<Vec<u8>>,
}

impl View for KeySet {
    type V = Set<Seq<u8>>;

    closed spec fn view(&self) -> Set<Seq<u8>> {
        Set::new(|key: Seq<u8>| exists|i: int| 0 <= i < self.keys@.len() && self.keys@[i]@ == key)
    }
}

impl KeySet {
    /// The empty set.
    pub fn new() -> (r: Self)
        ensures
            r@ == Set::<Seq<u8>>::empty(),
    {
        let r = KeySet { keys: Vec::new() };
        assert(r@ =~= Set::<Seq<u8>>::empty());
        r
    }

    /// Whether `key` is in the set.
    pub fn contains(&self, key: &Vec<u8>) -> (r: bool)
        ensures
            r == self@.contains(key@),
    {
        let mut i: usize = 0;
        while i < self.keys.len()
            invariant
                i <= self.keys@.len(),
                forall|j: int| 0 <= j < i ==> self.keys@[j]@ != key@,
            decreases self.keys@.len() - i,
        {
            if bytes_eq(&self.keys[i], key) {
                return true;
            }
            i = i + 1;
        }
        false
    }

    /// Adds `key` to the set.
    pub fn insert(&mut self, key: Vec<u8>)
        ensures
            final(self)@ == old(self)@.insert(key@),
    {
        if !self.contains(&key) {
            let ghost before = self.keys@;
            self.keys.push(key);
            proof {
                let after = self.keys@;
                assert forall|k: Seq<u8>| self@.contains(k) <==> (old(self)@.contains(k) || k
                    == key@) by {
                    if self@.contains(k) {
                        let j = choose|j: int| 0 <= j < after.len() && after[j]@ == k;
                        if j < before.len() {
                            assert(before[j]@ == k);
                        }
                    }
                    if old(self)@.contains(k) {
                        let j = choose|j: int| 0 <= j < before.len() && before[j]@ == k;
                        assert(after[j]@ == k);
                    }
                    if k == key@ {
                        assert(after[before.len() as int]@ == k);
                    }
                }
                assert(self@ =~= old(self)@.insert(key@));
            }
        } else {
            assert(self@ =~= old(self)@.insert(key@));
        }
    }
}

/// The inner nodes that reads have touched, each under its key.
#[derive(Debug)]
pub struct Proofs {
    items: Vec<(Vec<u8>, Value, Value)>,
}

impl View for Proofs {
    type V = Map<Seq<u8>, (ValueView, ValueView)>;

    closed spec fn view(&self) -> Map<Seq<u8>, (ValueView, ValueView)> {
        store_of(key_views(self.items@), pair_views(self.items@))
    }
}

impl Proofs {
    #[verifier::type_invariant]
    spec fn no_key_twice(self) -> bool {
        distinct(key_views(self.items@))
    }

    /// The keys of the entries, in the order in which they were first inserted,
    /// but that a removal moves the last key into the place of the removed one.
    pub closed spec fn order(&self) -> Seq<Seq<u8>> {
        key_views(self.items@)
    }

    /// No proofs: no pair under any key, and no key in the order.
    pub fn new() -> (r: Self)
        ensures
            r@ == Map::<Seq<u8>, (ValueView, ValueView)>::empty(),
            r.order() == Seq::<Seq<u8>>::empty(),
    {
        let r = Proofs { items: Vec::new() };
        assert(r@ =~= Map::<Seq<u8>, (ValueView, ValueView)>::empty());
        assert(r.order() =~= Seq::<Seq<u8>>::empty());
        r
    }

    /// The position of `key`, if it has an entry.
    fn find(&self, key: &Vec<u8>) -> (r: Option<usize>)
        ensures
            match r {
                Some(i) => i < self.items@.len() && self.items@[i as int].0@ == key@
                    && self@.contains_key(key@) && self@[key@] == (
                    self.items@[i as int].1@,
                    self.items@[i as int].2@,
                ),
                None => !self@.contains_key(key@),
            },
    {
        proof {
            use_type_invariant(self);
        }
        let mut i: usize = 0;
        while i < self.items.len()
            invariant
                distinct(key_views(self.items@)),
                i <= self.items@.len(),
                forall|j: int| 0 <= j < i ==> key_views(self.items@)[j] != key@,
            decreases self.items@.len() - i,
        {
            if bytes_eq(&self.items[i].0, key) {
                proof {
                    lemma_slot_found(key_views(self.items@), pair_views(self.items@), i as int);
                }
                return Some(i);
            }
            i = i + 1;
        }
        proof {
            if holds(key_views(self.items@), key@) {
                lemma_held_slot(key_views(self.items@), key@);
            }
        }
        None
    }

    /// The number of entries. The order lists each of them once.
    pub fn len(&self) -> (r: usize)
        ensures
            r == self@.dom().len(),
            r == self.order().len(),
            self@.dom().finite(),
            distinct(self.order()),
    {
        proof {
            use_type_invariant(self);
            lemma_store_len(key_views(self.items@), pair_views(self.items@));
        }
        self.items.len()
    }

    /// Whether `key` has an entry.
    pub fn contains(&self, key: &Vec<u8>) -> (r: bool)
        ensures
            r == self@.contains_key(key@),
    {
        self.find(key).is_some()
    }

    /// The pair under `key`.
    pub fn get(&self, key: &Vec<u8>) -> (r: Option<(Value, Value)>)
        ensures
            match r {
                Some(pair) => self@.contains_key(key@) && (pair.0@, pair.1@) == self@[key@],
                None => !self@.contains_key(key@),
            },
    {
        match self.find(key) {
            Some(i) => Some((self.items[i].1.clone(), self.items[i].2.clone())),
            None => None,
        }
    }

    /// The key and the pair at position `i` of the order.
    pub fn entry(&self, i: usize) -> (r: (Vec<u8>, Value, Value))
        requires
            i < self.order().len(),
        ensures
            r.0@ == self.order()[i as int],
            self@.contains_key(r.0@),
            self@[r.0@] == (r.1@, r.2@),
    {
        proof {
            use_type_invariant(self);
            lemma_slot_found(key_views(self.items@), pair_views(self.items@), i as int);
        }
        (self.items[i].0.clone(), self.items[i].1.clone(), self.items[i].2.clone())
    }

    /// The order lists every key once.
    pub proof fn lemma_order(&self)
        requires
            distinct(self.order()),
        ensures
            forall|i: int| 0 <= i < self.order().len() ==> self@.contains_key(#[trigger] self.order()[i]),
            forall|key: Seq<u8>| #[trigger]
                self@.contains_key(key) ==> exists|i: int|
                    0 <= i < self.order().len() && self.order()[i] == key,
    {
        assert forall|i: int| 0 <= i < self.order().len() implies self@.contains_key(
            #[trigger] self.order()[i],
        ) by {
            lemma_slot_found(key_views(self.items@), pair_views(self.items@), i);
        }
        assert forall|key: Seq<u8>| #[trigger] self@.contains_key(key) implies exists|i: int|
            0 <= i < self.order().len() && self.order()[i] == key by {
            lemma_held_slot(key_views(self.items@), key);
        }
    }

    /// Puts `value` under `key`, in place of what was there.
    pub fn insert(&mut self, key: Vec<u8>, value: (Value, Value))
        ensures
            final(self)@ == old(self)@.insert(key@, (value.0@, value.1@)),
    {
        proof {
            use_type_invariant(&*self);
        }
        let (left, right) = value;
        let ghost keys = key_views(self.items@);
        let ghost pairs = pair_views(self.items@);
        match self.find(&key) {
            Some(i) => {
                proof {
                    lemma_store_update(keys, pairs, i as int, (left@, right@));
                    let after = self.items@.update(i as int, (key, left, right));
                    assert(key_views(after) =~= keys);
                    assert(pair_views(after) =~= pairs.update(i as int, (left@, right@)));
                }
                let mut items: Vec<(Vec<u8>, Value, Value)> = Vec::new();
                core::mem::swap(&mut self.items, &mut items);
                items.set(i, (key, left, right));
                core::mem::swap(&mut self.items, &mut items);
            },
            None => {
                proof {
                    lemma_store_push(keys, pairs, key@, (left@, right@));
                    let after = self.items@.push((key, left, right));
                    assert(key_views(after) =~= keys.push(key@));
                    assert(pair_views(after) =~= pairs.push((left@, right@)));
                }
                let mut items: Vec<(Vec<u8>, Value, Value)> = Vec::new();
                core::mem::swap(&mut self.items, &mut items);
                items.push((key, left, right));
                core::mem::swap(&mut self.items, &mut items);
            },
        }
    }

    /// Takes the entry under `key` away, and hands out its pair.
    pub fn remove(&mut self, key: &Vec<u8>) -> (r: Option<(Value, Value)>)
        ensures
            match r {
                Some(pair) => old(self)@.contains_key(key@) && (pair.0@, pair.1@) == old(self)@[key@],
                None => !old(self)@.contains_key(key@),
            },
            final(self)@ == old(self)@.remove(key@),
    {
        proof {
            use_type_invariant(&*self);
        }
        match self.find(key) {
            Some(i) => {
                proof {
                    lemma_store_swap_remove(
                        key_views(self.items@),
                        pair_views(self.items@),
                        i as int,
                    );
                    let after = self.items@.update(i as int, self.items@.last()).drop_last();
                    assert(key_views(after) =~= key_views(self.items@).update(
                        i as int,
                        key_views(self.items@).last(),
                    ).drop_last());
                    assert(pair_views(after) =~= pair_views(self.items@).update(
                        i as int,
                        pair_views(self.items@).last(),
                    ).drop_last());
                }
                let mut items: Vec<(Vec<u8>, Value, Value)> = Vec::new();
                core::mem::swap(&mut self.items, &mut items);
                let (_, left, right) = items.swap_remove(i);
                core::mem::swap(&mut self.items, &mut items);
                Some((left, right))
            },
            None => {
                assert(self@.remove(key@) =~= self@);
                None
            },
        }
    }

    /// Whether every entry of these proofs is an entry of `other`.
    fn within(&self, other: &Self) -> (r: bool)
        ensures
            r == (forall|key: Seq<u8>| #[trigger]
                self@.contains_key(key) ==> other@.contains_key(key) && other@[key] == self@[key]),
    {
        proof {
            use_type_invariant(self);
        }
        let mut i: usize = 0;
        while i < self.items.len()
            invariant
                distinct(key_views(self.items@)),
                i <= self.items@.len(),
                forall|j: int|
                    0 <= j < i ==> other@.contains_key(#[trigger] key_views(self.items@)[j])
                        && other@[key_views(self.items@)[j]] == pair_views(self.items@)[j],
            decreases self.items@.len() - i,
        {
            proof {
                lemma_slot_found(key_views(self.items@), pair_views(self.items@), i as int);
            }
            let found = match other.find(&self.items[i].0) {
                None => false,
                Some(at) => self.items[i].1.same(&other.items[at].1) && self.items[i].2.same(
                    &other.items[at].2,
                ),
            };
            if !found {
                proof {
                    let key = key_views(self.items@)[i as int];
                    assert(self@.contains_key(key));
                    assert(!(other@.contains_key(key) && other@[key] == self@[key]));
                }
                return false;
            }
            i = i + 1;
        }
        proof {
            assert forall|key: Seq<u8>| #[trigger] self@.contains_key(key) implies other@.contains_key(
                key,
            ) && other@[key] == self@[key] by {
                lemma_held_slot(key_views(self.items@), key);
                let j = slot_of(key_views(self.items@), key);
                lemma_slot_found(key_views(self.items@), pair_views(self.items@), j);
            }
        }
        true
    }

    /// Whether two sets of proofs hold the same pairs under the same keys.
    pub fn same(&self, other: &Self) -> (r: bool)
        ensures
            r == (self@ == other@),
    {
        let r = self.within(other) && other.within(self);
        proof {
            if r {
                assert(self@ =~= other@);
            }
        }
        r
    }
}

impl Clone for Proofs {
    fn clone(&self) -> (r: Self)
        ensures
            r@ == self@,
            r.order() == self.order(),
    {
        proof {
            use_type_invariant(self);
        }
        let mut items: Vec<(Vec<u8>, Value, Value)> = Vec::new();
        let mut i: usize = 0;
        while i < self.items.len()
            invariant
                i <= self.items@.len(),
                items@.len() == i,
                key_views(items@) == key_views(self.items@).take(i as int),
                pair_views(items@) == pair_views(self.items@).take(i as int),
            decreases self.items@.len() - i,
        {
            let item = (self.items[i].0.clone(), self.items[i].1.clone(), self.items[i].2.clone());
            proof {
                assert(item.0@ == self.items@[i as int].0@);
                assert(key_views(self.items@).take(i + 1) =~= key_views(self.items@).take(
                    i as int,
                ).push(item.0@));
                assert(pair_views(self.items@).take(i + 1) =~= pair_views(self.items@).take(
                    i as int,
                ).push((item.1@, item.2@)));
                assert(key_views(items@.push(item)) =~= key_views(items@).push(item.0@));
                assert(pair_views(items@.push(item)) =~= pair_views(items@).push((item.1@, item.2@)));
                assert(key_views(items@.push(item)) =~= key_views(self.items@).take(i + 1));
                assert(pair_views(items@.push(item)) =~= pair_views(self.items@).take(i + 1));
            }
            items.push(item);
            i = i + 1;
        }
        proof {
            assert(key_views(self.items@).take(self.items@.len() as int) =~= key_views(self.items@));
            assert(pair_views(self.items@).take(self.items@.len() as int) =~= pair_views(
                self.items@,
            ));
        }
        Proofs { items }
    }
}

impl PartialEq for Proofs {
    fn eq(&self, other: &Self) -> (r: bool) {
        self.same(other)
    }
}

impl PartialEqSpecImpl for Proofs {
    open spec fn obeys_eq_spec() -> bool {
        true
    }

    open spec fn eq_spec(&self, other: &Self) -> bool {
        self@ == other@
    }
}

} // verus!
