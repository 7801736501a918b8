use bm::{
    Dangling, Error, Index, InMemoryBackend, Owned, Raw, ReadBackend, Sha256Construct, Value,
    WriteBackend,
};

type Construct = Sha256Construct;
type InMemory = InMemoryBackend<Construct>;

fn at(n: usize) -> Index {
    Index::from_one(n).unwrap()
}

fn leaf(byte: u8) -> Value {
    Value::End(vec![byte])
}

#[test]
fn default_tree_is_the_default_leaf() {
    let tree = Raw::<Owned, Construct>::default();
    assert_eq!(tree.root(), Value::End(vec![]));
    assert_eq!(tree.metadata(), Value::End(vec![]));
    let mut db = InMemory::default();
    assert_eq!(tree.get(&mut db, at(1)), Ok(Some(Value::End(vec![]))));
    assert_eq!(tree.get(&mut db, at(2)), Ok(None));
}

#[test]
fn get_after_set() {
    for index in [1usize, 2, 3, 4, 7, 9, 33, 1000, 1 << 20] {
        let mut db = InMemory::default();
        let mut tree = Raw::<Owned, Construct>::default();
        tree.set(&mut db, at(6), leaf(1)).unwrap();
        tree.set(&mut db, at(index), leaf(9)).unwrap();
        assert_eq!(tree.get(&mut db, at(index)), Ok(Some(leaf(9))));
    }
}

#[test]
fn get_after_set_on_a_dangling_tree() {
    let mut db = InMemory::default();
    let mut tree = Raw::<Dangling, Construct>::default();
    tree.set(&mut db, at(12), leaf(4)).unwrap();
    assert_eq!(tree.get(&mut db, at(12)), Ok(Some(leaf(4))));
    let root = tree.root().intermediate().unwrap();
    assert_eq!(db.count(&root), Some(0));
    tree.drop(&mut db).unwrap();
    assert_eq!(db.len(), 3);
}

#[test]
fn set_leaves_other_indices_alone() {
    let mut db = InMemory::default();
    let mut tree = Raw::<Owned, Construct>::default();
    for i in 8..16 {
        tree.set(&mut db, at(i), leaf(i as u8)).unwrap();
    }
    let before: Vec<_> = (1..32).map(|j| tree.get(&mut db, at(j)).unwrap()).collect();
    tree.set(&mut db, at(11), leaf(99)).unwrap();
    for j in 1usize..32 {
        let on_path = j == 1 || j == 2 || j == 5 || j == 11;
        let after = tree.get(&mut db, at(j)).unwrap();
        if on_path {
            assert_ne!(after, before[j - 1], "index {}", j);
        } else {
            assert_eq!(after, before[j - 1], "index {}", j);
        }
    }
    assert_eq!(tree.get(&mut db, at(11)), Ok(Some(leaf(99))));
    assert_eq!(tree.get(&mut db, at(22)), Ok(None));
}

#[test]
fn set_below_a_leaf_shows_a_default_leaf_beside_it() {
    let mut db = InMemory::default();
    let mut tree = Raw::<Owned, Construct>::default();
    assert_eq!(tree.get(&mut db, at(3)), Ok(None));
    tree.set(&mut db, at(2), leaf(1)).unwrap();
    assert_eq!(tree.get(&mut db, at(3)), Ok(Some(Value::End(vec![]))));
    assert_eq!(tree.get(&mut db, at(6)), Ok(None));
}

#[test]
fn set_twice_is_set_once() {
    for owned_index in [1usize, 4, 5, 64] {
        let mut db = InMemory::default();
        let mut tree = Raw::<Owned, Construct>::default();
        tree.set(&mut db, at(7), leaf(2)).unwrap();
        tree.set(&mut db, at(owned_index), leaf(3)).unwrap();
        let root = tree.root();
        let before = db.clone();
        tree.set(&mut db, at(owned_index), leaf(3)).unwrap();
        assert_eq!(tree.root(), root);
        assert!(db.same_contents(&before));
    }
}

#[test]
fn set_of_an_inner_node_twice_is_set_once() {
    let mut db = InMemory::default();
    let mut tree = Raw::<Owned, Construct>::default();
    tree.set(&mut db, at(4), leaf(2)).unwrap();
    let sub = tree.get(&mut db, at(2)).unwrap().unwrap();
    tree.set(&mut db, at(3), sub.clone()).unwrap();
    let root = tree.root();
    let before = db.clone();
    tree.set(&mut db, at(3), sub.clone()).unwrap();
    assert_eq!(tree.root(), root);
    assert!(db.same_contents(&before));
    assert_eq!(tree.get(&mut db, at(6)), Ok(Some(leaf(2))));
    tree.set(&mut db, at(1), sub.clone()).unwrap();
    let before = db.clone();
    tree.set(&mut db, at(1), sub.clone()).unwrap();
    assert_eq!(tree.root(), sub);
    assert!(db.same_contents(&before));
}

#[test]
fn two_orders_give_one_tree() {
    let pairs: Vec<(usize, u8)> = vec![(9, 1), (12, 2), (15, 3), (8, 4), (21, 5)];
    let mut db1 = InMemory::default();
    let mut tree1 = Raw::<Owned, Construct>::default();
    for (index, byte) in pairs.iter() {
        tree1.set(&mut db1, at(*index), leaf(*byte)).unwrap();
    }
    let mut db2 = InMemory::default();
    let mut tree2 = Raw::<Owned, Construct>::default();
    for (index, byte) in pairs.iter().rev() {
        tree2.set(&mut db2, at(*index), leaf(*byte)).unwrap();
    }
    assert!(tree1.get(&mut db1, at(21)).unwrap().is_some());
    assert_eq!(tree1.root(), tree2.root());
    assert!(db1.same_contents(&db2));
}

#[test]
fn dropping_the_tree_empties_the_backend() {
    let mut db = InMemory::default();
    let mut tree = Raw::<Owned, Construct>::default();
    for i in 16..32 {
        tree.set(&mut db, at(i), leaf(i as u8)).unwrap();
    }
    assert_eq!(db.len(), 15);
    tree.drop(&mut db).unwrap();
    assert!(db.is_empty());
}

#[test]
fn an_outside_reference_keeps_a_subtree() {
    let mut db = InMemory::default();
    let mut tree = Raw::<Owned, Construct>::default();
    for i in 4..8 {
        tree.set(&mut db, at(i), leaf(i as u8)).unwrap();
    }
    let sub = tree.subtree(&mut db, at(2)).unwrap();
    let key = sub.root().intermediate().unwrap();
    db.rootify(&key).unwrap();
    tree.drop(&mut db).unwrap();
    assert_eq!(db.len(), 1);
    assert_eq!(sub.get(&mut db, at(3)), Ok(Some(leaf(5))));
    db.unrootify(&key).unwrap();
    assert!(db.is_empty());
}

#[test]
fn writing_defaults_costs_nothing_once_the_tree_is_gone() {
    let mut db = InMemory::default();
    let mut tree = Raw::<Owned, Construct>::default();
    tree.set(&mut db, at(9), Value::End(vec![])).unwrap();
    assert_eq!(db.len(), 3);
    tree.set(&mut db, at(1), Value::End(vec![])).unwrap();
    assert!(db.is_empty());
    assert_eq!(tree.root(), Value::End(vec![]));
}

#[test]
fn set_grows_the_tree_below_a_leaf() {
    let mut db = InMemory::default();
    let mut tree = Raw::<Owned, Construct>::default();
    tree.set(&mut db, at(2), leaf(1)).unwrap();
    tree.set(&mut db, at(8), leaf(2)).unwrap();
    assert_eq!(tree.get(&mut db, at(8)), Ok(Some(leaf(2))));
    assert_eq!(tree.get(&mut db, at(9)), Ok(Some(Value::End(vec![]))));
    assert_eq!(tree.get(&mut db, at(5)), Ok(Some(Value::End(vec![]))));
    assert_eq!(tree.get(&mut db, at(3)), Ok(Some(Value::End(vec![]))));
}

#[test]
fn set_of_an_unknown_inner_node_is_not_found() {
    let mut db = InMemory::default();
    let mut tree = Raw::<Owned, Construct>::default();
    let unknown = Value::Intermediate(vec![3; 32]);
    assert_eq!(tree.set(&mut db, at(2), unknown.clone()), Err(Error::NotFound));
    assert_eq!(tree.set(&mut db, at(1), unknown.clone()), Err(Error::NotFound));
    assert_eq!(tree.root(), Value::End(vec![]));
    assert!(db.is_empty());
    let mut dangling = Raw::<Dangling, Construct>::default();
    assert_eq!(dangling.set(&mut db, at(1), unknown.clone()), Ok(()));
    assert_eq!(dangling.root(), unknown);
    assert_eq!(dangling.set(&mut db, at(1), unknown.clone()), Err(Error::NotFound));
    assert_eq!(dangling.get(&mut db, at(2)), Err(Error::NotFound));
}

#[test]
fn reads_below_a_missing_node_are_not_found() {
    let mut db = InMemory::default();
    let tree = Raw::<Dangling, Construct>::from_leaked(Value::Intermediate(vec![1; 32]));
    assert_eq!(tree.get(&mut db, at(1)), Ok(Some(Value::Intermediate(vec![1; 32]))));
    assert_eq!(tree.get(&mut db, at(2)), Err(Error::NotFound));
    assert!(matches!(tree.subtree(&mut db, at(2)), Err(Error::NotFound)));
    let mut other = Raw::<Dangling, Construct>::from_leaked(Value::Intermediate(vec![1; 32]));
    assert_eq!(other.set(&mut db, at(2), leaf(1)), Err(Error::NotFound));
}

#[test]
fn subtree_below_a_leaf_is_corruption() {
    let mut db = InMemory::default();
    let mut tree = Raw::<Owned, Construct>::default();
    tree.set(&mut db, at(2), leaf(1)).unwrap();
    assert!(matches!(tree.subtree(&mut db, at(4)), Err(Error::CorruptedDatabase)));
    let sub = tree.subtree(&mut db, at(2)).unwrap();
    assert_eq!(sub.root(), leaf(1));
    assert_eq!(sub.into_raw().root(), leaf(1));
}

#[test]
fn from_leaked_takes_no_reference() {
    let mut db = InMemory::default();
    let mut tree = Raw::<Owned, Construct>::default();
    tree.set(&mut db, at(2), leaf(1)).unwrap();
    let key = tree.root().intermediate().unwrap();
    assert_eq!(db.count(&key), Some(1));
    let again = Raw::<Owned, Construct>::from_leaked(tree.metadata());
    assert_eq!(db.count(&key), Some(1));
    assert_eq!(again.get(&mut db, at(2)), Ok(Some(leaf(1))));
    assert_eq!(db.get(&key), Ok((leaf(1), Value::End(vec![]))));
}
