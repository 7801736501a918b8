//! The raw tree: random reads and writes by generalized merkle index.

use crate::backend::{ReadBackend, WriteBackend};
use crate::error::Error;
use crate::index::{path_of, Index, IndexSelection};
use crate::store::{agrees, Store};
use crate::tree::{
    chosen, drop_outcome, lemma_wrapped_err, lookup, on_record, planted, readable, record_grown,
    set_outcome, set_reads, trail, wrapped, Frame,
};
use crate::value::{blank_leaf, Construct, Dangling, Owned, RootStatus, Value, ValueView};
use core::marker::PhantomData;
use vstd::prelude::*;

verus! {

/// `Raw` with owned root.
pub type OwnedRaw<C> = Raw<Owned, C>;

/// `Raw` with dangling root.
pub type DanglingRaw<C> = Raw<Dangling, C>;

/// Raw merkle tree.
pub struct Raw<R: RootStatus, C: Construct> {
    root: Value,
    _marker: PhantomData<(R, C)>,
}

/// What the result of a read is in contracts.
pub open spec fn read_view(result: Result<Option<Value>, Error>) -> Result<Option<ValueView>, Error> {
    match result {
        Ok(Some(value)) => Ok(Some(value@)),
        Ok(None) => Ok(None),
        Err(error) => Err(error),
    }
}

/// The frames that a stack of selections and children stands for.
pub open spec fn frame_views(frames: Seq<(IndexSelection, Value, Value)>) -> Seq<Frame> {
    Seq::new(
        frames.len(),
        |i: int| Frame { selection: frames[i].0, left: frames[i].1@, right: frames[i].2@ },
    )
}

impl<R: RootStatus, C: Construct> View for Raw<R, C> {
    type V = ValueView;

    /// A tree is known by its root.
    closed spec fn view(&self) -> ValueView {
        self.root@
    }
}

impl<R: RootStatus, C: Construct> Default for Raw<R, C> {
    /// The tree that is one default leaf.
    fn default() -> (r: Self)
        ensures
            r@ == blank_leaf::<C>(),
    {
        Raw { root: Value::End(C::default_end()), _marker: PhantomData }
    }
}

impl<R: RootStatus, C: Construct> Raw<R, C> {
    /// The root of the tree.
    pub fn root(&self) -> (r: Value)
        ensures
            r@ == self@,
    {
        self.root.clone()
    }

    /// Gives up the tree. An owned tree gives back the reference on its root.
    pub fn drop<DB: WriteBackend>(self, db: &mut DB) -> (r: Result<(), Error>)
        requires
            old(db).inv(),
        ensures
            final(db).inv(),
            final(db).faultless() == old(db).faultless(),
            agrees(
                old(db).faultless(),
                r,
                final(db).store(),
                drop_outcome(old(db).store(), self@, R::owned()),
            ),
            !R::owned() || self@ is End ==> r is Ok,
    {
        if R::is_owned() {
            match &self.root {
                Value::Intermediate(key) => {
                    return db.unrootify(key);
                },
                Value::End(_) => {},
            }
        }
        Ok(())
    }

    /// The tree itself.
    pub fn into_raw(self) -> (r: Raw<R, C>)
        ensures
            r@ == self@,
    {
        self
    }

    /// What has to be kept to find the tree again: its root.
    pub fn metadata(&self) -> (r: Value)
        ensures
            r@ == self@,
    {
        self.root()
    }

    /// The tree with the given root. No reference is taken on it.
    pub fn from_leaked(root: Value) -> (r: Self)
        ensures
            r@ == root@,
    {
        Raw { root, _marker: PhantomData }
    }

    /// Return a reference to a subtree.
    pub fn subtree<DB: ReadBackend>(&self, db: &mut DB, index: Index) -> (r: Result<
        DanglingRaw<C>,
        Error,
    >)
        requires
            old(db).inv(),
        ensures
            final(db).inv(),
            final(db).store() == old(db).store(),
            final(db).faultless() == old(db).faultless(),
            r matches Ok(tree) ==> lookup(old(db).store(), self@, path_of(index@)) == Ok::<
                Option<ValueView>,
                Error,
            >(Some(tree@)),
            old(db).faultless() ==> match lookup(old(db).store(), self@, path_of(index@)) {
                Ok(Some(value)) => r is Ok && r->Ok_0@ == value,
                Ok(None) => r is Err && r->Err_0 == Error::CorruptedDatabase,
                Err(error) => r is Err && r->Err_0 == error,
            },
    {
        match self.get(db, index) {
            Err(error) => Err(error),
            Ok(None) => Err(Error::CorruptedDatabase),
            Ok(Some(subroot)) => Ok(Raw { root: subroot, _marker: PhantomData }),
        }
    }

    /// Get value from the tree via generalized merkle index.
    pub fn get<DB: ReadBackend>(&self, db: &mut DB, index: Index) -> (r: Result<
        Option<Value>,
        Error,
    >)
        requires
            old(db).inv(),
        ensures
            final(db).inv(),
            final(db).store() == old(db).store(),
            final(db).faultless() == old(db).faultless(),
            r is Ok ==> read_view(r) == lookup(old(db).store(), self@, path_of(index@)),
            old(db).faultless() ==> read_view(r) == lookup(old(db).store(), self@, path_of(index@)),
            forall|key: Seq<u8>| final(db).recording(key) == old(db).recording(key),
            record_grown(old(db).witnessed(), final(db).witnessed(), old(db).store()),
            r is Ok && (forall|key: Seq<u8>| old(db).recording(key)) ==> on_record(
                final(db).witnessed(),
                old(db).store(),
                trail(old(db).store(), self@, path_of(index@)),
            ),
    {
        let route = index.route();
        let length = route.len();
        let ghost path = path_of(index@);
        let ghost store = db.store();
        let ghost mut seen: Seq<Seq<u8>> = Seq::empty();
        let mut current = self.root.clone();
        let mut level: usize = 0;
        assert(path.skip(0) =~= path);
        assert(seen + trail(store, current@, path.skip(0)) =~= trail(store, self@, path));
        while level < length
            invariant
                db.inv(),
                db.store() == store,
                store == old(db).store(),
                db.faultless() == old(db).faultless(),
                route@ == path,
                path == path_of(index@),
                length == path.len(),
                level <= length,
                lookup(store, self@, path) == lookup(store, current@, path.skip(level as int)),
                forall|key: Seq<u8>| db.recording(key) == old(db).recording(key),
                record_grown(old(db).witnessed(), db.witnessed(), store),
                trail(store, self@, path) == seen + trail(store, current@, path.skip(level as int)),
                (forall|key: Seq<u8>| old(db).recording(key)) ==> on_record(
                    db.witnessed(),
                    store,
                    seen,
                ),
            decreases length - level,
        {
            let selection = route.at_depth(level + 1).unwrap();
            let ghost rest = path.skip(level as int);
            assert(rest.len() > 0 && rest[0] == selection);
            assert(rest.drop_first() =~= path.skip(level + 1));
            let key = match current {
                Value::Intermediate(key) => key,
                Value::End(_) => {
                    proof {
                        assert(seen + Seq::<Seq<u8>>::empty() =~= seen);
                    }
                    return Ok(None);
                },
            };
            let pair = db.get(&key)?;
            current = match selection {
                IndexSelection::Left => pair.0,
                IndexSelection::Right => pair.1,
            };
            proof {
                assert(seen + (seq![key@] + trail(store, current@, path.skip(level + 1)))
                    =~= seen.push(key@) + trail(store, current@, path.skip(level + 1)));
                seen = seen.push(key@);
            }
            level = level + 1;
        }
        proof {
            assert(path.skip(length as int).len() == 0);
            assert(seen + Seq::<Seq<u8>>::empty() =~= seen);
        }
        Ok(Some(current))
    }

    /// Set value of the merkle tree via generalized merkle index.
    #[verifier::loop_isolation(false)]
    pub fn set<DB: WriteBackend>(&mut self, db: &mut DB, index: Index, set: Value) -> (r: Result<
        (),
        Error,
    >)
        requires
            old(db).inv(),
        ensures
            final(db).inv(),
            final(db).faultless() == old(db).faultless(),
            agrees(
                old(db).faultless(),
                r,
                (final(db).store(), final(self)@),
                set_outcome::<C>(old(db).store(), old(self)@, path_of(index@), set@, R::owned()),
            ),
            r is Err ==> final(self)@ == old(self)@,
            old(db).faultless() && set_reads::<C>(
                old(db).store(),
                old(self)@,
                path_of(index@),
                set@,
            ) is Err ==> final(db).store() == old(db).store(),
    {
        let route = index.route();
        let length = route.len();
        let owned = R::is_owned();
        let ghost path = path_of(index@);
        let ghost start = db.store();
        let ghost root = self.root@;
        let ghost value = set@;

        // A leaf root that is replaced as a whole takes the value as it is.
        if length == 0 {
            match &self.root {
                Value::End(_) => {
                    if owned {
                        match &set {
                            Value::Intermediate(key) => {
                                db.rootify(key)?;
                            },
                            Value::End(_) => {},
                        }
                    }
                    self.root = set;
                    return Ok(());
                },
                Value::Intermediate(_) => {},
            }
        }
        // A value that is an inner node must be stored before it becomes a child.
        match &set {
            Value::Intermediate(key) => {
                let pair = db.get(key)?;
                db.insert(key.clone(), pair)?;
            },
            Value::End(_) => {},
        }
        assert(db.store() == start);

        // Descend, collecting the children found at each level; below a leaf
        // there are two default leaves.
        let ghost target = planted::<C>(start, root, path, value);
        let mut frames: Vec<(IndexSelection, Value, Value)> = Vec::new();
        let mut current: Option<Vec<u8>> = self.root.intermediate();
        let ghost mut node: ValueView = root;
        let mut level: usize = 0;
        assert(path.skip(0) =~= path);
        while level < length
            invariant
                db.inv(),
                db.store() == start,
                db.faultless() == old(db).faultless(),
                self.root@ == root,
                level <= length,
                match current {
                    Some(key) => node == ValueView::Intermediate(key@),
                    None => node is End,
                },
                target == wrapped::<C>(
                    frame_views(frames@),
                    planted::<C>(start, node, path.skip(level as int), value),
                ),
                readable::<C>(start, root, path) == readable::<C>(
                    start,
                    node,
                    path.skip(level as int),
                ),
            decreases length - level,
        {
            let selection = route.at_depth(level + 1).unwrap();
            let ghost rest = path.skip(level as int);
            assert(rest.len() > 0 && rest[0] == selection);
            assert(rest.drop_first() =~= path.skip(level + 1));
            let ghost before = frame_views(frames@);
            match current {
                Some(key) => {
                    let (left, right) = match db.get(&key) {
                        Ok(pair) => pair,
                        Err(error) => {
                            proof {
                                lemma_wrapped_err::<C>(before, Error::NotFound);
                            }
                            return Err(error);
                        },
                    };
                    current = match selection {
                        IndexSelection::Left => left.intermediate(),
                        IndexSelection::Right => right.intermediate(),
                    };
                    proof {
                        node = chosen(left@, right@, selection);
                        assert(frame_views(frames@.push((selection, left, right))).drop_last()
                            =~= before);
                    }
                    frames.push((selection, left, right));
                },
                None => {
                    let left = Value::End(C::default_end());
                    let right = Value::End(C::default_end());
                    proof {
                        node = chosen(left@, right@, selection);
                        assert(frame_views(frames@.push((selection, left, right))).drop_last()
                            =~= before);
                    }
                    frames.push((selection, left, right));
                },
            }
            level = level + 1;
        }
        proof {
            assert(path.skip(length as int).len() == 0);
        }

        // Rebuild from the bottom up.
        let mut update = set;
        while frames.len() > 0
            invariant
                db.inv(),
                db.faultless() == old(db).faultless(),
                self.root@ == root,
                target == wrapped::<C>(
                    frame_views(frames@),
                    Ok::<(Store, ValueView), Error>((db.store(), update@)),
                ),
            decreases frames.len(),
        {
            let ghost before = frame_views(frames@);
            let (selection, left, right) = frames.pop().unwrap();
            assert(frame_views(frames@) =~= before.drop_last());
            let pair = match selection {
                IndexSelection::Left => (update, right),
                IndexSelection::Right => (left, update),
            };
            let key = C::intermediate_of(&pair.0, &pair.1);
            match db.insert(key.clone(), pair) {
                Ok(()) => {},
                Err(error) => {
                    proof {
                        if db.faultless() {
                            lemma_wrapped_err::<C>(before.drop_last(), error);
                        }
                    }
                    return Err(error);
                },
            }
            update = Value::Intermediate(key);
        }

        // An owned tree holds its new root before it gives up the old one.
        if owned {
            match &update {
                Value::Intermediate(key) => {
                    db.rootify(key)?;
                },
                Value::End(_) => {},
            }
            match &self.root {
                Value::Intermediate(key) => {
                    db.unrootify(key)?;
                },
                Value::End(_) => {},
            }
        }
        self.root = update;
        Ok(())
    }
}

} // verus!
