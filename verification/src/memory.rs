//! The in-memory backend: a list of slots, one for each stored inner node.

use crate::backend::{EmptyBackend, ReadBackend, WriteBackend};
use crate::error::Error;
use crate::slots::{
    distinct, holds, lemma_held_slot, lemma_slot_found, lemma_store_len, lemma_store_push,
    lemma_store_swap_remove, lemma_store_update, slot_of, store_of,
};
use crate::proofs::Proofs;
use crate::store::{
    agrees, bumped, compatible, lemma_with_empties_fails, merged, pair_at, pinned_at, populated,
    released, released_all, with_child, with_empties, Entry, Store, PINNED,
};
use crate::value::{bytes_eq, empty_node, Construct, Value, ValueView};
use core::marker::PhantomData;
use vstd::prelude::*;

verus! {

/// The byte sequences that a list of byte vectors holds.
pub open spec fn views(keys: Seq<Vec<u8>>) -> Seq<Seq<u8>> {
    Seq::new(keys.len(), |i: int| keys[i]@)
}

/// The entries that three parallel lists of children and counts hold.
pub open spec fn entries_of(lefts: Seq<Value>, rights: Seq<Value>, counts: Seq<u64>) -> Seq<Entry> {
    Seq::new(
        lefts.len(),
        |i: int| Entry { left: lefts[i]@, right: rights[i]@, count: counts[i] as nat },
    )
}

/// A backend that keeps every inner node in memory, with its reference count.
pub struct InMemoryBackend<C: Construct> {
    keys: Vec<Vec<u8>>,
    lefts: Vec<Value>,
    rights: Vec<Value>,
    counts: Vec<u64>,
    _marker: PhantomData<C>,
}

impl<C: Construct> InMemoryBackend<C> {
    /// The keys of the slots, in slot order.
    pub closed spec fn key_views(&self) -> Seq<Seq<u8>> {
        views(self.keys@)
    }

    /// The entries of the slots, in slot order.
    pub closed spec fn entries(&self) -> Seq<Entry> {
        entries_of(self.lefts@, self.rights@, self.counts@)
    }

    /// The slots are parallel, and no key has two slots.
    pub closed spec fn wf(&self) -> bool {
        &&& self.lefts@.len() == self.keys@.len()
        &&& self.rights@.len() == self.keys@.len()
        &&& self.counts@.len() == self.keys@.len()
        &&& distinct(self.key_views())
    }

    /// A backend that holds nothing.
    pub fn new() -> (r: Self)
        ensures
            r.inv(),
            r.store() == Map::<Seq<u8>, Entry>::empty(),
    {
        let r = InMemoryBackend {
            keys: Vec::new(),
            lefts: Vec::new(),
            rights: Vec::new(),
            counts: Vec::new(),
            _marker: PhantomData,
        };
        assert(r.store() =~= Map::<Seq<u8>, Entry>::empty());
        r
    }

    /// The slot that holds `key`, if any.
    fn find(&self, key: &Vec<u8>) -> (r: Option<usize>)
        requires
            self.wf(),
        ensures
            match r {
                Some(i) => i < self.keys@.len() && self.key_views()[i as int] == key@ && slot_of(
                    self.key_views(),
                    key@,
                ) == i && self.store().contains_key(key@),
                None => !self.store().contains_key(key@),
            },
    {
        let mut i: usize = 0;
        while i < self.keys.len()
            invariant
                self.wf(),
                i <= self.keys@.len(),
                forall|j: int| 0 <= j < i ==> self.key_views()[j] != key@,
            decreases self.keys@.len() - i,
        {
            if bytes_eq(&self.keys[i], key) {
                proof {
                    lemma_slot_found(self.key_views(), self.entries(), i as int);
                }
                return Some(i);
            }
            i = i + 1;
        }
        proof {
            if holds(self.key_views(), key@) {
                lemma_held_slot(self.key_views(), key@);
            }
        }
        None
    }

    /// Takes one more reference on the entry in slot `i`.
    fn raise(&mut self, i: usize)
        requires
            old(self).wf(),
            i < old(self).keys@.len(),
        ensures
            final(self).wf(),
            final(self).key_views() == old(self).key_views(),
            final(self).store() == bumped(
                old(self).store(),
                ValueView::Intermediate(old(self).key_views()[i as int]),
            ),
    {
        let count: u64 = self.counts[i];
        let next: u64 = if count == PINNED {
            count
        } else {
            count + 1
        };
        proof {
            lemma_slot_found(self.key_views(), self.entries(), i as int);
            let entry = Entry {
                left: self.lefts@[i as int]@,
                right: self.rights@[i as int]@,
                count: next as nat,
            };
            lemma_store_update(self.key_views(), self.entries(), i as int, entry);
            assert(entries_of(self.lefts@, self.rights@, self.counts@.update(i as int, next))
                =~= self.entries().update(i as int, entry));
        }
        self.counts.set(i, next);
    }

    /// Adds a slot for a key that has none.
    fn append(&mut self, key: Vec<u8>, left: Value, right: Value, count: u64)
        requires
            old(self).wf(),
            !old(self).store().contains_key(key@),
        ensures
            final(self).wf(),
            final(self).store() == old(self).store().insert(
                key@,
                Entry { left: left@, right: right@, count: count as nat },
            ),
    {
        proof {
            let entry = Entry { left: left@, right: right@, count: count as nat };
            lemma_store_push(self.key_views(), self.entries(), key@, entry);
            assert(views(self.keys@.push(key)) =~= self.key_views().push(key@));
            assert(entries_of(self.lefts@.push(left), self.rights@.push(right), self.counts@.push(count))
                =~= self.entries().push(entry));
        }
        self.keys.push(key);
        self.lefts.push(left);
        self.rights.push(right);
        self.counts.push(count);
    }

    /// Drops slot `i`, and hands out the children it held.
    fn discard(&mut self, i: usize) -> (children: (Value, Value))
        requires
            old(self).wf(),
            i < old(self).keys@.len(),
        ensures
            final(self).wf(),
            final(self).keys@.len() == old(self).keys@.len() - 1,
            final(self).store() == old(self).store().remove(old(self).key_views()[i as int]),
            children.0@ == old(self).entries()[i as int].left,
            children.1@ == old(self).entries()[i as int].right,
    {
        proof {
            lemma_store_swap_remove(self.key_views(), self.entries(), i as int);
            let keys = self.keys@.update(i as int, self.keys@.last()).drop_last();
            assert(views(keys) =~= self.key_views().update(i as int, self.key_views().last()).drop_last());
            assert(entries_of(
                self.lefts@.update(i as int, self.lefts@.last()).drop_last(),
                self.rights@.update(i as int, self.rights@.last()).drop_last(),
                self.counts@.update(i as int, self.counts@.last()).drop_last(),
            ) =~= self.entries().update(i as int, self.entries().last()).drop_last());
        }
        self.keys.swap_remove(i);
        let left = self.lefts.swap_remove(i);
        let right = self.rights.swap_remove(i);
        self.counts.swap_remove(i);
        (left, right)
    }

    /// Stores the pair under `key` with a pinned count.
    fn pin(&mut self, key: Vec<u8>, left: Value, right: Value) -> (r: Result<(), Error>)
        requires
            old(self).wf(),
        ensures
            final(self).wf(),
            agrees(true, r, final(self).store(), pinned_at(old(self).store(), key@, left@, right@)),
            r is Err ==> final(self).store() == old(self).store(),
    {
        match self.find(&key) {
            Some(i) => {
                proof {
                    lemma_slot_found(self.key_views(), self.entries(), i as int);
                }
                if self.lefts[i].same(&left) && self.rights[i].same(&right) {
                    proof {
                        let entry = Entry { left: left@, right: right@, count: PINNED as nat };
                        lemma_store_update(self.key_views(), self.entries(), i as int, entry);
                        assert(entries_of(
                            self.lefts@,
                            self.rights@,
                            self.counts@.update(i as int, PINNED),
                        ) =~= self.entries().update(i as int, entry));
                    }
                    self.counts.set(i, PINNED);
                    Ok(())
                } else {
                    Err(Error::CorruptedDatabase)
                }
            },
            None => {
                self.append(key, left, right, PINNED);
                Ok(())
            },
        }
    }

    /// Adds the pairs of `proofs`, each with one reference, and takes a
    /// reference on `root`.
    pub fn populate(&mut self, proofs: &Proofs, root: &Value) -> (r: Result<(), Error>)
        requires
            old(self).inv(),
        ensures
            final(self).inv(),
            agrees(true, r, final(self).store(), populated(old(self).store(), proofs@, root@)),
    {
        let ghost start = self.store();
        let ghost order = proofs.order();
        let count = proofs.len();
        proof {
            proofs.lemma_order();
        }
        let mut i: usize = 0;
        while i < count
            invariant
                self.wf(),
                start == old(self).store(),
                order == proofs.order(),
                count == order.len(),
                i <= count,
                forall|j: int| 0 <= j < order.len() ==> proofs@.contains_key(#[trigger] order[j]),
                forall|key: Seq<u8>| #[trigger]
                    proofs@.contains_key(key) ==> exists|j: int|
                        0 <= j < order.len() && order[j] == key,
                forall|j: int|
                    0 <= j < i && start.contains_key(#[trigger] order[j]) ==> pair_at(
                        start,
                        order[j],
                    ) == proofs@[order[j]],
                forall|key: Seq<u8>|
                    self.store().contains_key(key) <==> start.contains_key(key) || exists|j: int|
                        0 <= j < i && order[j] == key,
                forall|key: Seq<u8>| #[trigger]
                    self.store().contains_key(key) ==> self.store()[key] == merged(
                        start,
                        proofs@,
                    )[key],
            decreases count - i,
        {
            let (key, left, right) = proofs.entry(i);
            let ghost before = self.store();
            match self.find(&key) {
                Some(at) => {
                    proof {
                        lemma_slot_found(self.key_views(), self.entries(), at as int);
                    }
                    if !(self.lefts[at].same(&left) && self.rights[at].same(&right)) {
                        proof {
                            assert(start.contains_key(key@)) by {
                                if !start.contains_key(key@) {
                                    let j = choose|j: int| 0 <= j < i && order[j] == key@;
                                    assert(self.store()[key@] == merged(start, proofs@)[key@]);
                                }
                            }
                            assert(self.store()[key@] == merged(start, proofs@)[key@]);
                            assert(!compatible(start, proofs@));
                        }
                        return Err(Error::CorruptedDatabase);
                    }
                    proof {
                        if start.contains_key(key@) {
                            assert(self.store()[key@] == merged(start, proofs@)[key@]);
                        }
                    }
                },
                None => {
                    self.append(key, left, right, 1);
                },
            }
            proof {
                assert forall|k: Seq<u8>|
                    self.store().contains_key(k) <==> start.contains_key(k) || exists|j: int|
                        0 <= j < i + 1 && order[j] == k by {
                    if before.contains_key(k) && !start.contains_key(k) {
                        let j = choose|j: int| 0 <= j < i && order[j] == k;
                        assert(0 <= j < i + 1 && order[j] == k);
                    }
                    if k == key@ {
                        assert(order[i as int] == k);
                    }
                    if exists|j: int| 0 <= j < i + 1 && order[j] == k {
                        let j = choose|j: int| 0 <= j < i + 1 && order[j] == k;
                        if j < i {
                            assert(before.contains_key(k));
                        }
                    }
                }
            }
            i = i + 1;
        }
        proof {
            assert forall|key: Seq<u8>|
                #![trigger start.contains_key(key)]
                #![trigger proofs@.contains_key(key)]
                start.contains_key(key) && proofs@.contains_key(key) implies pair_at(start, key)
                == proofs@[key] by {
                let j = choose|j: int| 0 <= j < order.len() && order[j] == key;
                assert(start.contains_key(order[j]));
            }
            assert(self.store() =~= merged(start, proofs@));
        }
        match root {
            Value::Intermediate(key) => self.rootify(key),
            Value::End(_) => Ok(()),
        }
    }

    /// The number of references held on the entry under `key`, if there is one.
    pub fn count(&self, key: &Vec<u8>) -> (r: Option<u64>)
        requires
            self.inv(),
        ensures
            match r {
                Some(count) => self.store().contains_key(key@) && self.store()[key@].count == count,
                None => !self.store().contains_key(key@),
            },
    {
        match self.find(key) {
            Some(i) => {
                proof {
                    lemma_slot_found(self.key_views(), self.entries(), i as int);
                }
                Some(self.counts[i])
            },
            None => None,
        }
    }

    /// The number of inner nodes that the backend holds.
    pub fn len(&self) -> (r: usize)
        requires
            self.inv(),
        ensures
            r == self.store().dom().len(),
    {
        proof {
            lemma_store_len(self.key_views(), self.entries());
        }
        self.keys.len()
    }

    /// Whether the backend holds nothing.
    pub fn is_empty(&self) -> (r: bool)
        requires
            self.inv(),
        ensures
            r == (self.store() == Map::<Seq<u8>, Entry>::empty()),
    {
        proof {
            if self.keys@.len() == 0 {
                assert(self.store() =~= Map::<Seq<u8>, Entry>::empty());
            } else {
                lemma_slot_found(self.key_views(), self.entries(), 0);
            }
        }
        self.keys.len() == 0
    }

    /// Whether every entry of this backend is an entry of `other`, with the
    /// same children and the same count.
    fn within(&self, other: &Self) -> (r: bool)
        requires
            self.wf(),
            other.wf(),
        ensures
            r == (forall|key: Seq<u8>| #[trigger]
                self.store().contains_key(key) ==> other.store().contains_key(key)
                    && other.store()[key] == self.store()[key]),
    {
        let mut i: usize = 0;
        while i < self.keys.len()
            invariant
                self.wf(),
                other.wf(),
                i <= self.keys@.len(),
                forall|j: int|
                    0 <= j < i ==> other.store().contains_key(#[trigger] self.key_views()[j])
                        && other.store()[self.key_views()[j]] == self.entries()[j],
            decreases self.keys@.len() - i,
        {
            proof {
                lemma_slot_found(self.key_views(), self.entries(), i as int);
            }
            let found = match other.find(&self.keys[i]) {
                None => false,
                Some(at) => {
                    proof {
                        lemma_slot_found(other.key_views(), other.entries(), at as int);
                    }
                    self.lefts[i].same(&other.lefts[at]) && self.rights[i].same(&other.rights[at])
                        && self.counts[i] == other.counts[at]
                },
            };
            if !found {
                proof {
                    let key = self.key_views()[i as int];
                    assert(self.store().contains_key(key));
                    assert(self.store()[key] == self.entries()[i as int]);
                    assert(!(other.store().contains_key(key) && other.store()[key]
                        == self.store()[key]));
                }
                return false;
            }
            i = i + 1;
        }
        proof {
            assert forall|key: Seq<u8>| #[trigger]
                self.store().contains_key(key) implies other.store().contains_key(key)
                && other.store()[key] == self.store()[key] by {
                lemma_held_slot(self.key_views(), key);
                let j = slot_of(self.key_views(), key);
                lemma_slot_found(self.key_views(), self.entries(), j);
            }
        }
        true
    }

    /// Whether two backends hold the same inner nodes with the same counts.
    pub fn same_contents(&self, other: &Self) -> (r: bool)
        requires
            self.inv(),
            other.inv(),
        ensures
            r == (self.store() == other.store()),
    {
        let r = self.within(other) && other.within(self);
        proof {
            if r {
                assert(self.store() =~= other.store());
            }
        }
        r
    }
}

impl<C: Construct> ReadBackend for InMemoryBackend<C> {
    closed spec fn store(&self) -> Store {
        store_of(self.key_views(), self.entries())
    }

    closed spec fn inv(&self) -> bool {
        self.wf()
    }

    open spec fn faultless(&self) -> bool {
        true
    }


    fn get(&mut self, key: &Vec<u8>) -> (r: Result<(Value, Value), Error>) {
        match self.find(key) {
            None => Err(Error::NotFound),
            Some(i) => {
                proof {
                    lemma_slot_found(self.key_views(), self.entries(), i as int);
                }
                Ok((self.lefts[i].clone(), self.rights[i].clone()))
            },
        }
    }
}

impl<C: Construct> WriteBackend for InMemoryBackend<C> {
    fn rootify(&mut self, key: &Vec<u8>) -> (r: Result<(), Error>) {
        match self.find(key) {
            None => Err(Error::NotFound),
            Some(i) => {
                self.raise(i);
                Ok(())
            },
        }
    }

    fn unrootify(&mut self, key: &Vec<u8>) -> (r: Result<(), Error>) {
        let ghost target = released(self.store(), key@);
        let mut stack: Vec<Vec<u8>> = Vec::new();
        stack.push(key.clone());
        assert(views(stack@) =~= seq![key@]);
        while stack.len() > 0
            invariant
                self.wf(),
                target == released(old(self).store(), key@),
                released_all(self.store(), views(stack@)) == target,
            decreases self.keys@.len(), stack@.len(),
        {
            proof {
                lemma_store_len(self.key_views(), self.entries());
            }
            let ghost before = views(stack@);
            let top = stack.pop().unwrap();
            assert(views(stack@) =~= before.drop_last());
            assert(top@ == before.last());
            match self.find(&top) {
                None => {
                    proof {
                        assert(before.len() > 0 && !self.store().contains_key(before.last()));
                        assert(released_all(self.store(), before) == Err::<Store, Error>(
                            Error::NotFound,
                        ));
                    }
                    return Err(Error::NotFound);
                },
                Some(i) => {
                    proof {
                        lemma_slot_found(self.key_views(), self.entries(), i as int);
                    }
                    let count: u64 = self.counts[i];
                    if count == PINNED {
                    } else if count > 1 {
                        proof {
                            let entry = Entry {
                                left: self.lefts@[i as int]@,
                                right: self.rights@[i as int]@,
                                count: (count - 1) as nat,
                            };
                            lemma_store_update(self.key_views(), self.entries(), i as int, entry);
                            assert(entries_of(
                                self.lefts@,
                                self.rights@,
                                self.counts@.update(i as int, (count - 1) as u64),
                            ) =~= self.entries().update(i as int, entry));
                        }
                        self.counts.set(i, count - 1);
                    } else {
                        let ghost rest = views(stack@);
                        let (left, right) = self.discard(i);
                        match right {
                            Value::Intermediate(child) => {
                                proof {
                                    assert(views(stack@.push(child)) =~= views(stack@).push(child@));
                                }
                                stack.push(child);
                            },
                            Value::End(_) => {},
                        }
                        assert(views(stack@) == with_child(rest, right@));
                        match left {
                            Value::Intermediate(child) => {
                                proof {
                                    assert(views(stack@.push(child)) =~= views(stack@).push(child@));
                                }
                                stack.push(child);
                            },
                            Value::End(_) => {},
                        }
                        assert(views(stack@) == with_child(with_child(rest, right@), left@));
                    }
                },
            }
        }
        assert(views(stack@) =~= Seq::<Seq<u8>>::empty());
        Ok(())
    }

    fn insert(&mut self, key: Vec<u8>, value: (Value, Value)) -> (r: Result<(), Error>) {
        let (left, right) = value;
        match self.find(&key) {
            Some(i) => {
                proof {
                    lemma_slot_found(self.key_views(), self.entries(), i as int);
                }
                if self.lefts[i].same(&left) && self.rights[i].same(&right) {
                    Ok(())
                } else {
                    Err(Error::CorruptedDatabase)
                }
            },
            None => {
                let left_slot: Option<usize> = match &left {
                    Value::Intermediate(child) => match self.find(child) {
                        Some(i) => Some(i),
                        None => {
                            return Err(Error::NotFound);
                        },
                    },
                    Value::End(_) => None,
                };
                let right_slot: Option<usize> = match &right {
                    Value::Intermediate(child) => match self.find(child) {
                        Some(i) => Some(i),
                        None => {
                            return Err(Error::NotFound);
                        },
                    },
                    Value::End(_) => None,
                };
                match left_slot {
                    Some(i) => {
                        self.raise(i);
                    },
                    None => {},
                }
                assert(self.store() == bumped(old(self).store(), left@));
                match right_slot {
                    Some(i) => {
                        self.raise(i);
                    },
                    None => {},
                }
                assert(self.store() == bumped(bumped(old(self).store(), left@), right@));
                self.append(key, left, right, 0);
                Ok(())
            },
        }
    }
}

impl<C: Construct> EmptyBackend<C> for InMemoryBackend<C> {
    fn empty_at(&mut self, depth: usize) -> (r: Result<Value, Error>) {
        let ghost start = self.store();
        let mut current = Value::End(C::default_end());
        let mut level: usize = 0;
        while level < depth
            invariant
                self.wf(),
                start == old(self).store(),
                level <= depth,
                current@ == empty_node::<C>(level as nat),
                with_empties::<C>(start, level as nat) == Ok::<Store, Error>(self.store()),
            decreases depth - level,
        {
            let key = C::intermediate_of(&current, &current);
            match self.pin(key.clone(), current.clone(), current) {
                Ok(()) => {},
                Err(error) => {
                    proof {
                        assert(with_empties::<C>(start, (level + 1) as nat) == Err::<Store, Error>(
                            error,
                        ));
                        lemma_with_empties_fails::<C>(start, (level + 1) as nat, depth as nat);
                    }
                    return Err(error);
                },
            }
            current = Value::Intermediate(key);
            level = level + 1;
        }
        Ok(current)
    }
}

impl<C: Construct> Clone for InMemoryBackend<C> {
    fn clone(&self) -> (r: Self)
        ensures
            self.inv() ==> r.inv() && r.store() == self.store(),
    {
        let mut keys: Vec<Vec<u8>> = Vec::new();
        let mut lefts: Vec<Value> = Vec::new();
        let mut rights: Vec<Value> = Vec::new();
        let mut counts: Vec<u64> = Vec::new();
        let mut i: usize = 0;
        if self.lefts.len() != self.keys.len() || self.rights.len() != self.keys.len()
            || self.counts.len() != self.keys.len() {
            return InMemoryBackend::new();
        }
        while i < self.keys.len()
            invariant
                i <= self.keys@.len(),
                self.lefts@.len() == self.keys@.len(),
                self.rights@.len() == self.keys@.len(),
                self.counts@.len() == self.keys@.len(),
                keys@.len() == i,
                lefts@.len() == i,
                rights@.len() == i,
                counts@.len() == i,
                views(keys@) == self.key_views().take(i as int),
                entries_of(lefts@, rights@, counts@) == self.entries().take(i as int),
            decreases self.keys@.len() - i,
        {
            proof {
                assert(self.key_views().take(i + 1) =~= self.key_views().take(i as int).push(
                    self.keys@[i as int]@,
                ));
                assert(self.entries().take(i + 1) =~= self.entries().take(i as int).push(
                    self.entries()[i as int],
                ));
            }
            let key = self.keys[i].clone();
            let left = self.lefts[i].clone();
            let right = self.rights[i].clone();
            let count: u64 = self.counts[i];
            proof {
                assert(views(keys@.push(key)) =~= views(keys@).push(key@));
                assert(entries_of(lefts@.push(left), rights@.push(right), counts@.push(count))
                    =~= entries_of(lefts@, rights@, counts@).push(self.entries()[i as int]));
            }
            keys.push(key);
            lefts.push(left);
            rights.push(right);
            counts.push(count);
            i = i + 1;
        }
        proof {
            assert(self.key_views().take(self.keys@.len() as int) =~= self.key_views());
            assert(self.entries().take(self.keys@.len() as int) =~= self.entries());
        }
        InMemoryBackend { keys, lefts, rights, counts, _marker: PhantomData }
    }
}

impl<C: Construct> Default for InMemoryBackend<C> {
    fn default() -> (r: Self)
        ensures
            r.inv(),
            r.store() == Map::<Seq<u8>, Entry>::empty(),
    {
        InMemoryBackend::new()
    }
}

} // verus!
