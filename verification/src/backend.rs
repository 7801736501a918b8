//! The contract between trees and the backends that hold their inner nodes.

use crate::error::Error;
use crate::store::{agrees, inserted, pair_at, released, rootified, with_empties, Store};
use crate::value::{empty_node, Construct, Value, ValueView};
use vstd::prelude::*;

verus! {

/// Reading inner nodes.
///
/// A backend may fail for reasons of its own. One that is `faultless` fails
/// only where its contents give the reason, and then the contracts below say
/// exactly when each call succeeds.
pub trait ReadBackend {
    /// The contents of the backend. A backend that does not say what it holds
    /// is taken to hold nothing.
    open spec fn store(&self) -> Store {
        Map::empty()
    }

    /// The invariant of the implementation.
    open spec fn inv(&self) -> bool {
        true
    }

    /// Whether the backend fails only where its contents give the reason. A
    /// backend that does not say so is not taken to be.
    open spec fn faultless(&self) -> bool {
        false
    }

    /// The pairs that the backend has on record as read, each under its key. A
    /// backend that does not say so keeps no record.
    open spec fn witnessed(&self) -> Map<Seq<u8>, (ValueView, ValueView)> {
        Map::empty()
    }

    /// Whether a read of `key` goes on record.
    open spec fn recording(&self, key: Seq<u8>) -> bool {
        false
    }

    /// The two children stored under `key`.
    fn get(&mut self, key: &Vec<u8>) -> (r: Result<(Value, Value), Error>)
        requires
            old(self).inv(),
        ensures
            final(self).inv(),
            final(self).store() == old(self).store(),
            final(self).faultless() == old(self).faultless(),
            r matches Ok(pair) ==> old(self).store().contains_key(key@) && pair.0@ == old(
                self,
            ).store()[key@].left && pair.1@ == old(self).store()[key@].right,
            old(self).faultless() ==> (r is Ok <==> old(self).store().contains_key(key@)),
            old(self).faultless() && r is Err ==> r == Err::<(Value, Value), Error>(
                Error::NotFound,
            ),
            forall|other: Seq<u8>| final(self).recording(other) == old(self).recording(other),
            final(self).witnessed() == (if r is Ok && old(self).recording(key@) {
                old(self).witnessed().insert(key@, pair_at(old(self).store(), key@))
            } else {
                old(self).witnessed()
            }),
    ;
}

/// Writing inner nodes and holding references on them.
pub trait WriteBackend: ReadBackend {
    /// Takes one more reference on the entry under `key`.
    fn rootify(&mut self, key: &Vec<u8>) -> (r: Result<(), Error>)
        requires
            old(self).inv(),
        ensures
            final(self).inv(),
            final(self).faultless() == old(self).faultless(),
            agrees(old(self).faultless(), r, final(self).store(), rootified(old(self).store(), key@)),
            r is Err ==> final(self).store() == old(self).store(),
    ;

    /// Gives back one reference on the entry under `key`; an entry that loses
    /// its last reference is removed and its children are released in turn.
    fn unrootify(&mut self, key: &Vec<u8>) -> (r: Result<(), Error>)
        requires
            old(self).inv(),
        ensures
            final(self).inv(),
            final(self).faultless() == old(self).faultless(),
            agrees(old(self).faultless(), r, final(self).store(), released(old(self).store(), key@)),
    ;

    /// Stores the pair `value` under `key`.
    fn insert(&mut self, key: Vec<u8>, value: (Value, Value)) -> (r: Result<(), Error>)
        requires
            old(self).inv(),
        ensures
            final(self).inv(),
            final(self).faultless() == old(self).faultless(),
            agrees(
                old(self).faultless(),
                r,
                final(self).store(),
                inserted(old(self).store(), key@, value.0@, value.1@),
            ),
            r is Err ==> final(self).store() == old(self).store(),
    ;
}

/// Making the roots of empty trees.
pub trait EmptyBackend<C: Construct>: WriteBackend {
    /// The root of the all-default tree with `depth` levels below it. Its inner
    /// nodes are pinned in the backend, so that they outlive every tree.
    fn empty_at(&mut self, depth: usize) -> (r: Result<Value, Error>)
        requires
            old(self).inv(),
        ensures
            final(self).inv(),
            final(self).faultless() == old(self).faultless(),
            r matches Ok(root) ==> root@ == empty_node::<C>(depth as nat),
            agrees(
                old(self).faultless(),
                r,
                final(self).store(),
                with_empties::<C>(old(self).store(), depth as nat),
            ),
    ;
}

} // verus!
