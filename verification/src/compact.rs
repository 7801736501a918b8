//! The compact form of proofs: the pairs without their keys, in the order in
//! which a walk from the root meets them.

use crate::error::Error;
use crate::proofs::Proofs;
use crate::value::{bytes_eq, Construct, Value, ValueView};
use vstd::prelude::*;

verus! {

/// Proofs in contracts: pairs of children under their keys.
pub type ProofMap = Map<Seq<u8>, (ValueView, ValueView)>;

/// Proofs in compact form: the root they were collected from, and their pairs
/// in the order of a walk from the root that goes left before right and
/// opens every inner node where it first meets it.
#[derive(Debug)]
pub struct Compact {
    pub root: Value,
    pub pairs: Vec<(Value, Value)>,
}

/// What a compact proof is in contracts.
pub struct CompactView {
    pub root: ValueView,
    pub pairs: Seq<(ValueView, ValueView)>,
}

/// The pairs that a list of pairs of values stands for.
pub open spec fn pairs_view(pairs: Seq<(Value, Value)>) -> Seq<(ValueView, ValueView)> {
    Seq::new(pairs.len(), |i: int| (pairs[i].0@, pairs[i].1@))
}

/// The values that a list of values stands for.
pub open spec fn values_view(values: Seq<Value>) -> Seq<ValueView> {
    Seq::new(values.len(), |i: int| values[i]@)
}

impl View for Compact {
    type V = CompactView;

    open spec fn view(&self) -> CompactView {
        CompactView { root: self.root@, pairs: pairs_view(self.pairs@) }
    }
}

/// Whether the walk opens `value`: it is an inner node that `proofs` holds.
pub open spec fn opens(proofs: ProofMap, value: ValueView) -> bool {
    value is Intermediate && proofs.contains_key(value->Intermediate_0)
}

/// The pairs of `proofs` in the order in which a walk meets them that starts
/// with the values on `stack`, the top one first. A node that is opened is
/// taken out of the proofs, so that it is listed once.
pub open spec fn listed(proofs: ProofMap, stack: Seq<ValueView>) -> Seq<(ValueView, ValueView)>
    decreases proofs.dom().len(), stack.len(),
{
    if stack.len() == 0 || !proofs.dom().finite() {
        Seq::empty()
    } else if opens(proofs, stack.last()) {
        let key = stack.last()->Intermediate_0;
        let pair = proofs[key];
        seq![pair] + listed(proofs.remove(key), stack.drop_last().push(pair.1).push(pair.0))
    } else {
        listed(proofs, stack.drop_last())
    }
}

/// The proofs that the walk of `listed` does not reach.
pub open spec fn unvisited(proofs: ProofMap, stack: Seq<ValueView>) -> ProofMap
    decreases proofs.dom().len(), stack.len(),
{
    if stack.len() == 0 || !proofs.dom().finite() {
        proofs
    } else if opens(proofs, stack.last()) {
        let key = stack.last()->Intermediate_0;
        let pair = proofs[key];
        unvisited(proofs.remove(key), stack.drop_last().push(pair.1).push(pair.0))
    } else {
        unvisited(proofs, stack.drop_last())
    }
}

/// The compact form of `proofs` for the root `root`.
pub open spec fn compacted(proofs: ProofMap, root: ValueView) -> CompactView {
    CompactView { root, pairs: listed(proofs, seq![root]) }
}

/// Whether the pair at `at` is the one that opens `value`: the value is an
/// inner node that has not been found yet, and its key is the hash of the pair.
pub open spec fn fits_next<C: Construct>(
    pairs: Seq<(ValueView, ValueView)>,
    at: nat,
    found: ProofMap,
    value: ValueView,
) -> bool {
    &&& value is Intermediate
    &&& !found.contains_key(value->Intermediate_0)
    &&& at < pairs.len()
    &&& C::digest(pairs[at as int].0, pairs[at as int].1) == value->Intermediate_0
}

/// The proofs that the pairs from `at` on give back, added to `found`, on the
/// walk that starts with the values on `stack`. Pairs that are left over when
/// the walk ends do not belong to the root: the proof is corrupted.
pub open spec fn unlisted<C: Construct>(
    pairs: Seq<(ValueView, ValueView)>,
    at: nat,
    found: ProofMap,
    stack: Seq<ValueView>,
) -> Result<ProofMap, Error>
    decreases
            (if at <= pairs.len() {
                pairs.len() - at
            } else {
                0
            }),
            stack.len(),
{
    if stack.len() == 0 {
        if at == pairs.len() {
            Ok(found)
        } else {
            Err(Error::CorruptedProof)
        }
    } else if fits_next::<C>(pairs, at, found, stack.last()) {
        let pair = pairs[at as int];
        unlisted::<C>(
            pairs,
            at + 1,
            found.insert(stack.last()->Intermediate_0, pair),
            stack.drop_last().push(pair.1).push(pair.0),
        )
    } else {
        unlisted::<C>(pairs, at, found, stack.drop_last())
    }
}

/// The proofs and the root that a compact proof gives back.
pub open spec fn expanded<C: Construct>(compact: CompactView) -> Result<(ProofMap, ValueView), Error> {
    match unlisted::<C>(compact.pairs, 0, Map::empty(), seq![compact.root]) {
        Ok(found) => Ok((found, compact.root)),
        Err(error) => Err(error),
    }
}

/// Whether every pair of `proofs` stands under the key that is its hash.
pub open spec fn faithful<C: Construct>(proofs: ProofMap) -> bool {
    forall|key: Seq<u8>| #[trigger]
        proofs.contains_key(key) ==> key == C::digest(proofs[key].0, proofs[key].1)
}

/// A record of pairs of a store in which every pair stands under its hash is
/// faithful.
pub proof fn law_record_is_faithful<C: Construct>(store: crate::store::Store, record: ProofMap)
    requires
        crate::laws::hashed::<C>(store),
        crate::laws::holds_record(store, record),
    ensures
        faithful::<C>(record),
{
    assert forall|key: Seq<u8>| #[trigger] record.contains_key(key) implies key == C::digest(
        record[key].0,
        record[key].1,
    ) by {
        assert(store.contains_key(key));
    }
}

/// The first pair that a walk lists is a pair of the proofs.
pub proof fn lemma_listed_first(proofs: ProofMap, stack: Seq<ValueView>)
    requires
        listed(proofs, stack).len() > 0,
    ensures
        exists|key: Seq<u8>| #[trigger] proofs.contains_key(key) && listed(proofs, stack)[0] == proofs[key],
    decreases proofs.dom().len(), stack.len(),
{
    if opens(proofs, stack.last()) {
        let key = stack.last()->Intermediate_0;
        assert(proofs.contains_key(key) && listed(proofs, stack)[0] == proofs[key]);
    } else {
        lemma_listed_first(proofs, stack.drop_last());
    }
}

/// Reading back what a walk has listed gives the proofs of the walk, added to
/// those found before, where the walk reaches every pair and every pair
/// stands under its hash.
pub proof fn lemma_walk_back<C: Construct>(
    proofs: ProofMap,
    stack: Seq<ValueView>,
    found: ProofMap,
    pairs: Seq<(ValueView, ValueView)>,
    at: nat,
)
    requires
        proofs.dom().finite(),
        faithful::<C>(proofs),
        forall|key: Seq<u8>| !(proofs.contains_key(key) && found.contains_key(key)),
        at <= pairs.len(),
        pairs.skip(at as int) == listed(proofs, stack),
        unvisited(proofs, stack) == Map::<Seq<u8>, (ValueView, ValueView)>::empty(),
    ensures
        unlisted::<C>(pairs, at, found, stack) == Ok::<ProofMap, Error>(
            found.union_prefer_right(proofs),
        ),
    decreases proofs.dom().len(), stack.len(),
{
    if stack.len() == 0 {
        assert(pairs.skip(at as int).len() == 0);
        assert(found.union_prefer_right(proofs) =~= found);
    } else if opens(proofs, stack.last()) {
        let key = stack.last()->Intermediate_0;
        let pair = proofs[key];
        let next = stack.drop_last().push(pair.1).push(pair.0);
        assert(listed(proofs, stack) == seq![pair] + listed(proofs.remove(key), next));
        assert(listed(proofs, stack).len() >= 1);
        assert(pairs.skip(at as int).len() == pairs.len() - at);
        assert(listed(proofs, stack)[0] == pair);
        assert(pairs.skip(at as int)[0] == pairs[at as int]);
        assert(pairs[at as int] == pair);
        assert(pairs.skip(at as int + 1) =~= pairs.skip(at as int).skip(1));
        assert(pairs.skip(at as int).skip(1) =~= listed(proofs.remove(key), next));
        assert(fits_next::<C>(pairs, at, found, stack.last()));
        lemma_walk_back::<C>(proofs.remove(key), next, found.insert(key, pair), pairs, at + 1);
        assert(found.insert(key, pair).union_prefer_right(proofs.remove(key))
            =~= found.union_prefer_right(proofs));
    } else {
        if fits_next::<C>(pairs, at, found, stack.last()) {
            assert(pairs.skip(at as int)[0] == pairs[at as int]);
            lemma_listed_first(proofs, stack);
            let key = choose|key: Seq<u8>| #[trigger]
                proofs.contains_key(key) && listed(proofs, stack)[0] == proofs[key];
            assert(key == stack.last()->Intermediate_0);
        }
        lemma_walk_back::<C>(proofs, stack.drop_last(), found, pairs, at);
    }
}

/// Compact round-trip: proofs that are made compact and expanded again are
/// the same proofs, with the same root.
///
/// The proofs are those that reads from the root collect: finitely many,
/// every pair under the key that is its hash, and every pair reached by the
/// walk from the root.
pub proof fn law_compact_round_trip<C: Construct>(proofs: ProofMap, root: ValueView)
    requires
        proofs.dom().finite(),
        faithful::<C>(proofs),
        unvisited(proofs, seq![root]) == Map::<Seq<u8>, (ValueView, ValueView)>::empty(),
    ensures
        expanded::<C>(compacted(proofs, root)) == Ok::<(ProofMap, ValueView), Error>((proofs, root)),
{
    let pairs = listed(proofs, seq![root]);
    assert(pairs.skip(0) =~= pairs);
    lemma_walk_back::<C>(proofs, seq![root], Map::empty(), pairs, 0);
    assert(Map::<Seq<u8>, (ValueView, ValueView)>::empty().union_prefer_right(proofs) =~= proofs);
}

impl Proofs {
    /// The compact form of the proofs for the root `root`.
    pub fn into_compact(&self, root: Value) -> (r: Compact)
        ensures
            r@ == compacted(self@, root@),
    {
        let mut rest = self.clone();
        let mut pairs: Vec<(Value, Value)> = Vec::new();
        let mut stack: Vec<Value> = Vec::new();
        stack.push(root.clone());
        let mut left: usize = rest.len();
        assert(values_view(stack@) =~= seq![root@]);
        assert(pairs_view(pairs@) + listed(rest@, values_view(stack@)) =~= listed(
            self@,
            seq![root@],
        ));
        while stack.len() > 0
            invariant
                left == rest@.dom().len(),
                rest@.dom().finite(),
                pairs_view(pairs@) + listed(rest@, values_view(stack@)) == listed(
                    self@,
                    seq![root@],
                ),
            decreases left, stack@.len(),
        {
            let ghost before = values_view(stack@);
            let ghost held = rest@;
            let ghost listed_before = listed(held, before);
            let top = stack.pop().unwrap();
            assert(values_view(stack@) =~= before.drop_last());
            assert(top@ == before.last());
            match top {
                Value::Intermediate(key) => {
                    match rest.remove(&key) {
                        Some((lower, upper)) => {
                            proof {
                                let pair = (lower@, upper@);
                                assert(opens(held, before.last()));
                                assert(held[key@] == pair);
                                assert(listed_before == seq![pair] + listed(
                                    held.remove(key@),
                                    before.drop_last().push(pair.1).push(pair.0),
                                ));
                                assert(values_view(stack@.push(upper).push(lower))
                                    =~= before.drop_last().push(pair.1).push(pair.0));
                                assert(pairs_view(pairs@.push((lower, upper))) =~= pairs_view(
                                    pairs@,
                                ).push(pair));
                                assert(pairs_view(pairs@).push(pair) + listed(
                                    rest@,
                                    before.drop_last().push(pair.1).push(pair.0),
                                ) =~= pairs_view(pairs@) + listed_before);
                            }
                            let copy = (lower.clone(), upper.clone());
                            proof {
                                assert(pairs_view(pairs@.push(copy)) =~= pairs_view(pairs@).push(
                                    (lower@, upper@),
                                ));
                            }
                            pairs.push(copy);
                            stack.push(upper);
                            stack.push(lower);
                            left = rest.len();
                        },
                        None => {
                            proof {
                                assert(held.remove(key@) =~= held);
                                assert(!opens(held, before.last()));
                                assert(listed_before == listed(held, before.drop_last()));
                            }
                        },
                    }
                },
                Value::End(_) => {
                    proof {
                        assert(!opens(held, before.last()));
                        assert(listed_before == listed(held, before.drop_last()));
                    }
                },
            }
        }
        proof {
            assert(values_view(stack@) =~= Seq::<ValueView>::empty());
            assert(pairs_view(pairs@) + Seq::<(ValueView, ValueView)>::empty() =~= pairs_view(
                pairs@,
            ));
        }
        Compact { root, pairs }
    }

    /// The proofs and the root that a compact proof stands for. The keys are
    /// made by hashing the pairs again.
    pub fn from_compact<C: Construct>(compact: Compact) -> (r: Result<(Proofs, Value), Error>)
        ensures
            match expanded::<C>(compact@) {
                Ok((found, root)) => r is Ok && r->Ok_0.0@ == found && r->Ok_0.1@ == root,
                Err(error) => r is Err && r->Err_0 == error,
            },
    {
        let Compact { root, pairs } = compact;
        let mut found = Proofs::new();
        let mut stack: Vec<Value> = Vec::new();
        stack.push(root.clone());
        let mut at: usize = 0;
        let ghost whole = pairs_view(pairs@);
        let ghost target = unlisted::<C>(whole, 0, Map::empty(), seq![root@]);
        assert(values_view(stack@) =~= seq![root@]);
        while stack.len() > 0
            invariant
                at <= pairs@.len(),
                whole == pairs_view(pairs@),
                unlisted::<C>(whole, at as nat, found@, values_view(stack@)) == target,
            decreases pairs@.len() - at, stack@.len(),
        {
            let ghost before = values_view(stack@);
            let top = stack.pop().unwrap();
            assert(values_view(stack@) =~= before.drop_last());
            assert(top@ == before.last());
            match top {
                Value::Intermediate(key) => {
                    if !found.contains(&key) && at < pairs.len() {
                        let rehashed = C::intermediate_of(&pairs[at].0, &pairs[at].1);
                        if bytes_eq(&rehashed, &key) {
                            let lower = pairs[at].0.clone();
                            let upper = pairs[at].1.clone();
                            proof {
                                let pair = whole[at as int];
                                assert(values_view(stack@.push(upper).push(lower))
                                    =~= before.drop_last().push(pair.1).push(pair.0));
                            }
                            found.insert(key, (lower.clone(), upper.clone()));
                            stack.push(upper);
                            stack.push(lower);
                            at = at + 1;
                        }
                    }
                },
                Value::End(_) => {},
            }
        }
        proof {
            assert(values_view(stack@) =~= Seq::<ValueView>::empty());
        }
        if at == pairs.len() {
            Ok((found, root))
        } else {
            Err(Error::CorruptedProof)
        }
    }
}

} // verus!
