//! Generalized merkle indices and the routes they describe.

use crate::error::Error;
use vstd::prelude::*;

verus! {

/// One step of a route: which child to descend into.
#[derive(Clone, Copy, Debug, PartialEq, Eq, Structural)]
pub enum IndexSelection {
    Left,
    Right,
}

/// The route from the root of a tree down to a node.
#[derive(Debug, PartialEq, Eq)]
pub enum IndexRoute {
    /// The node is the root itself.
    Root,
    /// The node is reached by these selections, taken from the root down.
    Select(Vec<IndexSelection>),
}

/// A generalized merkle index: the root is 1, the children of `n` are `2n` and `2n + 1`.
#[derive(Clone, Copy, Debug, PartialEq, Eq)]
pub struct Index(usize);

/// The selection that the lowest bit of `n` stands for.
pub open spec fn selection_of(n: nat) -> IndexSelection {
    if n % 2 == 0 {
        IndexSelection::Left
    } else {
        IndexSelection::Right
    }
}

/// The selections that lead from the root to the node numbered `n`: the binary
/// digits of `n` after the leading one, most significant first.
pub open spec fn path_of(n: nat) -> Seq<IndexSelection>
    decreases n,
{
    if n <= 1 {
        Seq::empty()
    } else {
        path_of(n / 2).push(selection_of(n))
    }
}

/// The number of the node that `path` leads to from the node numbered `from`.
pub open spec fn number_of(from: nat, path: Seq<IndexSelection>) -> nat
    decreases path.len(),
{
    if path.len() == 0 {
        from
    } else {
        let up = number_of(from, path.drop_last());
        match path.last() {
            IndexSelection::Left => 2 * up,
            IndexSelection::Right => 2 * up + 1,
        }
    }
}

/// The depth of the node numbered `n`: the length of its path.
pub open spec fn depth_of(n: nat) -> nat
    decreases n,
{
    if n <= 1 {
        0
    } else {
        depth_of(n / 2) + 1
    }
}

/// The length of a node's path is its depth.
pub proof fn lemma_path_len(n: nat)
    ensures
        path_of(n).len() == depth_of(n),
    decreases n,
{
    if n > 1 {
        lemma_path_len(n / 2);
    }
}

/// A node's number is recovered from its path: numbering inverts `path_of`.
pub proof fn law_number_of_path(n: nat)
    requires
        n >= 1,
    ensures
        number_of(1, path_of(n)) == n,
    decreases n,
{
    if n > 1 {
        law_number_of_path(n / 2);
        assert(path_of(n).drop_last() =~= path_of(n / 2));
    }
}

/// A path is recovered from the number it leads to: `path_of` inverts numbering.
pub proof fn law_path_of_number(path: Seq<IndexSelection>)
    ensures
        number_of(1, path) >= 1,
        path_of(number_of(1, path)) == path,
    decreases path.len(),
{
    if path.len() > 0 {
        law_path_of_number(path.drop_last());
        let up = number_of(1, path.drop_last());
        let n = number_of(1, path);
        assert(n / 2 == up);
        assert(selection_of(n) == path.last());
        assert(path_of(n) =~= path);
    }
}

impl View for IndexRoute {
    type V = Seq<IndexSelection>;

    open spec fn view(&self) -> Seq<IndexSelection> {
        match self {
            IndexRoute::Root => Seq::empty(),
            IndexRoute::Select(selections) => selections@,
        }
    }
}

impl Clone for IndexRoute {
    fn clone(&self) -> (r: IndexRoute)
        ensures
            r@ == self@,
            r is Root <==> self is Root,
    {
        match self {
            IndexRoute::Root => IndexRoute::Root,
            IndexRoute::Select(selections) => {
                let mut copy: Vec<IndexSelection> = Vec::new();
                let mut i: usize = 0;
                while i < selections.len()
                    invariant
                        i <= selections@.len(),
                        copy@ == selections@.take(i as int),
                    decreases selections@.len() - i,
                {
                    copy.push(selections[i]);
                    proof {
                        assert(selections@.take(i + 1) =~= selections@.take(i as int).push(
                            selections@[i as int],
                        ));
                    }
                    i = i + 1;
                }
                proof {
                    assert(selections@.take(selections@.len() as int) =~= selections@);
                }
                IndexRoute::Select(copy)
            },
        }
    }
}

impl IndexRoute {
    /// The selection taken at `depth`, counted from 1 at the root; `None` past the
    /// end of the route, and for depth 0.
    pub fn at_depth(&self, depth: usize) -> (r: Option<IndexSelection>)
        ensures
            r == (if 1 <= depth <= self@.len() {
                Some(self@[depth - 1])
            } else {
                None
            }),
    {
        match self {
            IndexRoute::Root => None,
            IndexRoute::Select(selections) => {
                if depth == 0 || depth > selections.len() {
                    None
                } else {
                    Some(selections[depth - 1])
                }
            },
        }
    }

    /// The number of selections on the route.
    pub fn len(&self) -> (r: usize)
        ensures
            r == self@.len(),
    {
        match self {
            IndexRoute::Root => 0,
            IndexRoute::Select(selections) => selections.len(),
        }
    }
}

impl View for Index {
    type V = nat;

    closed spec fn view(&self) -> nat {
        self.0 as nat
    }
}

impl Index {
    #[verifier::type_invariant]
    spec fn positive(self) -> bool {
        self.0 >= 1
    }

    /// The root of the tree.
    pub fn root() -> (r: Index)
        ensures
            r@ == 1,
    {
        Index(1)
    }

    /// The left child of this node.
    pub fn left(&self) -> (r: Index)
        requires
            2 * self@ <= usize::MAX,
        ensures
            r@ == 2 * self@,
    {
        proof {
            use_type_invariant(self);
        }
        Index(2 * self.0)
    }

    /// The right child of this node.
    pub fn right(&self) -> (r: Index)
        requires
            2 * self@ + 1 <= usize::MAX,
        ensures
            r@ == 2 * self@ + 1,
    {
        Index(2 * self.0 + 1)
    }

    /// The index with the given number, counted from 1 at the root. Zero names no
    /// node and is rejected.
    pub fn from_one(value: usize) -> (r: Result<Index, Error>)
        ensures
            value == 0 ==> r == Err::<Index, Error>(Error::InvalidIndex),
            value != 0 ==> r is Ok && r->Ok_0@ == value,
    {
        if value == 0 {
            Err(Error::InvalidIndex)
        } else {
            Ok(Index(value))
        }
    }

    /// The number of this index, counted from 1 at the root.
    pub fn value(&self) -> (r: usize)
        ensures
            r == self@,
            r >= 1,
    {
        proof {
            use_type_invariant(self);
        }
        self.0
    }

    /// The route from the root to this node.
    pub fn route(&self) -> (r: IndexRoute)
        ensures
            r@ == path_of(self@),
            r is Root <==> self@ == 1,
    {
        proof {
            use_type_invariant(self);
        }
        if self.0 == 1 {
            return IndexRoute::Root;
        }
        let mut low_first: Vec<IndexSelection> = Vec::new();
        let mut rest: usize = self.0;
        while rest > 1
            invariant
                rest >= 1,
                path_of(self.0 as nat) == path_of(rest as nat) + low_first@.reverse(),
            decreases rest,
        {
            let selection = if rest % 2 == 0 {
                IndexSelection::Left
            } else {
                IndexSelection::Right
            };
            proof {
                let grown = low_first@.push(selection);
                assert(grown.reverse() =~= seq![selection] + low_first@.reverse());
                assert(path_of(rest as nat) + low_first@.reverse() =~= path_of((rest / 2) as nat)
                    + grown.reverse());
            }
            low_first.push(selection);
            rest = rest / 2;
        }
        let mut selections: Vec<IndexSelection> = Vec::new();
        let mut left: usize = low_first.len();
        while left > 0
            invariant
                left <= low_first.len(),
                selections@ == low_first@.reverse().take(low_first.len() - left),
            decreases left,
        {
            left = left - 1;
            selections.push(low_first[left]);
            proof {
                let whole = low_first@.reverse();
                assert(whole.take(low_first.len() - left) =~= whole.take(low_first.len() - left
                    - 1).push(low_first@[left as int]));
            }
        }
        proof {
            assert(low_first@.reverse().take(low_first.len() as int) =~= low_first@.reverse());
            assert(path_of(1) + low_first@.reverse() =~= low_first@.reverse());
            assert(path_of(self.0 as nat).len() > 0) by {
                assert(path_of(self.0 as nat) == path_of((self.0 / 2) as nat).push(
                    selection_of(self.0 as nat),
                ));
            }
        }
        IndexRoute::Select(selections)
    }
}

} // verus!
