//! The proving backend: a backend that remembers what was read through it.

use crate::backend::{EmptyBackend, ReadBackend, WriteBackend};
use crate::error::Error;
use crate::proofs::{KeySet, Proofs};
use crate::store::Store;
use crate::value::{Construct, Value, ValueView};
use vstd::prelude::*;

verus! {

/// Proving merkle database.
///
/// Every read of a key that was not inserted through the wrapper before is
/// recorded with the pair that was read.
pub struct ProvingBackend<'a, DB: ReadBackend> {
    /// The backend that does the work.
    pub db: &'a mut DB,
    /// The pairs read so far, each under its key.
    pub proofs: Proofs,
    /// The keys inserted so far.
    pub inserts: KeySet,
}

impl<'a, DB: ReadBackend> ProvingBackend<'a, DB> {
    /// Create a new proving database.
    pub fn new(db: &'a mut DB) -> (r: Self)
        ensures
            *r.db == *old(db),
            *final(r.db) == *final(db),
            r.proofs@ == Map::<Seq<u8>, (ValueView, ValueView)>::empty(),
            r.inserts@ == Set::<Seq<u8>>::empty(),
    {
        ProvingBackend { db, proofs: Proofs::new(), inserts: KeySet::new() }
    }

    /// Gives up the wrapper, and hands out the proofs.
    pub fn into_proofs(self) -> (r: Proofs)
        ensures
            r@ == self.proofs@,
    {
        self.proofs
    }

    /// Reset the proving database and get all the proofs.
    pub fn reset(&mut self) -> (r: Proofs)
        ensures
            r@ == old(self).proofs@,
            final(self).proofs@ == Map::<Seq<u8>, (ValueView, ValueView)>::empty(),
            final(self).inserts@ == Set::<Seq<u8>>::empty(),
            *final(self).db == *old(self).db,
            *final(final(self).db) == *final(old(self).db),
    {
        let mut proofs = Proofs::new();
        core::mem::swap(&mut self.proofs, &mut proofs);
        self.inserts = KeySet::new();
        proofs
    }
}

impl<'a, DB: ReadBackend> ReadBackend for ProvingBackend<'a, DB> {
    open spec fn store(&self) -> Store {
        self.db.store()
    }

    open spec fn inv(&self) -> bool {
        self.db.inv()
    }

    open spec fn faultless(&self) -> bool {
        self.db.faultless()
    }

    open spec fn witnessed(&self) -> Map<Seq<u8>, (ValueView, ValueView)> {
        self.proofs@
    }

    open spec fn recording(&self, key: Seq<u8>) -> bool {
        !self.inserts@.contains(key)
    }

    fn get(&mut self, key: &Vec<u8>) -> (r: Result<(Value, Value), Error>)
        ensures
            final(self).inserts@ == old(self).inserts@,
            final(self).proofs@ == (if r is Ok && !old(self).inserts@.contains(key@) {
                old(self).proofs@.insert(key@, (r->Ok_0.0@, r->Ok_0.1@))
            } else {
                old(self).proofs@
            }),
            *final(final(self).db) == *final(old(self).db),
    {
        let value = self.db.get(key)?;
        if !self.inserts.contains(key) {
            self.proofs.insert(key.clone(), (value.0.clone(), value.1.clone()));
        }
        Ok(value)
    }
}

impl<'a, DB: WriteBackend> WriteBackend for ProvingBackend<'a, DB> {
    fn rootify(&mut self, key: &Vec<u8>) -> (r: Result<(), Error>)
        ensures
            final(self).inserts@ == old(self).inserts@,
            final(self).proofs@ == old(self).proofs@,
            *final(final(self).db) == *final(old(self).db),
    {
        self.db.rootify(key)
    }

    fn unrootify(&mut self, key: &Vec<u8>) -> (r: Result<(), Error>)
        ensures
            final(self).inserts@ == old(self).inserts@,
            final(self).proofs@ == old(self).proofs@,
            *final(final(self).db) == *final(old(self).db),
    {
        self.db.unrootify(key)
    }

    fn insert(&mut self, key: Vec<u8>, value: (Value, Value)) -> (r: Result<(), Error>)
        ensures
            final(self).inserts@ == old(self).inserts@.insert(key@),
            final(self).proofs@ == old(self).proofs@,
            *final(final(self).db) == *final(old(self).db),
    {
        self.inserts.insert(key.clone());
        self.db.insert(key, value)
    }
}

impl<'a, C: Construct, DB: EmptyBackend<C>> EmptyBackend<C> for ProvingBackend<'a, DB> {
    fn empty_at(&mut self, depth: usize) -> (r: Result<Value, Error>)
        ensures
            final(self).inserts@ == old(self).inserts@,
            final(self).proofs@ == old(self).proofs@,
            *final(final(self).db) == *final(old(self).db),
    {
        self.db.empty_at(depth)
    }
}

} // verus!
