//! Tree values, the construct that hashes a pair of them into a key, and the
//! tag that says whether a tree holds a reference on its root.

use vstd::prelude::*;

verus! {

/// A value of the tree.
#[derive(Debug, PartialEq, Eq)]
pub enum Value {
    /// An inner node, named by the key under which a backend holds its two children.
    Intermediate(Vec<u8>),
    /// A leaf, carrying its bytes.
    End(Vec<u8>),
}

/// What a `Value` is in contracts: the same two variants over byte sequences.
pub enum ValueView {
    Intermediate(Seq<u8>),
    End(Seq<u8>),
}

impl View for Value {
    type V = ValueView;

    open spec fn view(&self) -> ValueView {
        match self {
            Value::Intermediate(key) => ValueView::Intermediate(key@),
            Value::End(end) => ValueView::End(end@),
        }
    }
}

/// Whether two byte vectors hold the same bytes.
pub fn bytes_eq(a: &Vec<u8>, b: &Vec<u8>) -> (r: bool)
    ensures
        r == (a@ == b@),
{
    if a.len() != b.len() {
        return false;
    }
    let mut i: usize = 0;
    while i < a.len()
        invariant
            i <= a.len(),
            a.len() == b.len(),
            a@.take(i as int) == b@.take(i as int),
        decreases a.len() - i,
    {
        if a[i] != b[i] {
            return false;
        }
        proof {
            assert(a@.take(i + 1) =~= a@.take(i as int).push(a@[i as int]));
            assert(b@.take(i + 1) =~= b@.take(i as int).push(b@[i as int]));
        }
        i = i + 1;
    }
    proof {
        assert(a@.take(a.len() as int) =~= a@);
        assert(b@.take(b.len() as int) =~= b@);
    }
    true
}

impl Clone for Value {
    fn clone(&self) -> (r: Value)
        ensures
            r@ == self@,
    {
        match self {
            Value::Intermediate(key) => Value::Intermediate(key.clone()),
            Value::End(end) => Value::End(end.clone()),
        }
    }
}

impl Value {
    /// The key of an inner node; `None` for a leaf.
    pub fn intermediate(&self) -> (r: Option<Vec<u8>>)
        ensures
            match self@ {
                ValueView::Intermediate(key) => r is Some && r->Some_0@ == key,
                ValueView::End(_) => r is None,
            },
    {
        match self {
            Value::Intermediate(key) => Some(key.clone()),
            Value::End(_) => None,
        }
    }

    /// The bytes of a leaf; `None` for an inner node.
    pub fn end(&self) -> (r: Option<Vec<u8>>)
        ensures
            match self@ {
                ValueView::End(end) => r is Some && r->Some_0@ == end,
                ValueView::Intermediate(_) => r is None,
            },
    {
        match self {
            Value::End(end) => Some(end.clone()),
            Value::Intermediate(_) => None,
        }
    }

    /// Whether two values are the same variant over the same bytes.
    pub fn same(&self, other: &Value) -> (r: bool)
        ensures
            r == (self@ == other@),
    {
        match (self, other) {
            (Value::Intermediate(a), Value::Intermediate(b)) => bytes_eq(a, b),
            (Value::End(a), Value::End(b)) => bytes_eq(a, b),
            _ => false,
        }
    }
}

/// The bytes that a value contributes to the hash of its parent: the key of an
/// inner node, the payload of a leaf.
pub open spec fn bytes_of(value: ValueView) -> Seq<u8> {
    match value {
        ValueView::Intermediate(key) => key,
        ValueView::End(end) => end,
    }
}

/// The binding of a pair hash and a default leaf. Implementations choose the
/// hash; the tree only relies on `intermediate_of` being a function of the pair.
pub trait Construct {
    /// The key of the inner node whose children are `left` and `right`.
    spec fn digest(left: ValueView, right: ValueView) -> Seq<u8>;

    /// The payload of the default leaf, of which empty trees are made.
    spec fn blank() -> Seq<u8>;

    /// Computes the key of the inner node with the given children.
    fn intermediate_of(left: &Value, right: &Value) -> (key: Vec<u8>)
        ensures
            key@ == Self::digest(left@, right@),
    ;

    /// The payload of the default leaf.
    fn default_end() -> (end: Vec<u8>)
        ensures
            end@ == Self::blank(),
    ;
}

/// The default leaf of a construct.
pub open spec fn blank_leaf<C: Construct>() -> ValueView {
    ValueView::End(C::blank())
}

/// The root of the all-default tree with `depth` levels below it: the default
/// leaf at depth 0, and above that the node whose two children are the empty
/// tree one level down.
pub open spec fn empty_node<C: Construct>(depth: nat) -> ValueView
    decreases depth,
{
    if depth == 0 {
        blank_leaf::<C>()
    } else {
        let below = empty_node::<C>((depth - 1) as nat);
        ValueView::Intermediate(C::digest(below, below))
    }
}

/// Whether a tree holds a reference of its own on its root.
pub trait RootStatus {
    /// True for trees that rootify their root, false for trees that borrow the
    /// liveness of another.
    spec fn owned() -> bool;

    /// Whether trees with this status hold a reference on their root.
    fn is_owned() -> (r: bool)
        ensures
            r == Self::owned(),
    ;
}

/// The status of a tree that keeps its root alive.
pub struct Owned;

/// The status of a tree whose root is kept alive by a containing tree.
pub struct Dangling;

impl RootStatus for Owned {
    open spec fn owned() -> bool {
        true
    }

    fn is_owned() -> (r: bool) {
        true
    }
}

impl RootStatus for Dangling {
    open spec fn owned() -> bool {
        false
    }

    fn is_owned() -> (r: bool) {
        false
    }
}

} // verus!
