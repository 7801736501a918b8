use bm::{
    Compact, Construct, Error, Index, InMemoryBackend, KeySet, Owned, Proofs, ProvingBackend, Raw,
    ReadBackend, Sha256Construct, Value, WriteBackend,
};

type InMemory = InMemoryBackend<Sha256Construct>;

fn at(n: usize) -> Index {
    Index::from_one(n).unwrap()
}

fn leaf(byte: u8) -> Value {
    Value::End(vec![byte])
}

#[test]
fn key_sets() {
    let mut keys = KeySet::new();
    assert!(!keys.contains(&vec![1]));
    keys.insert(vec![1]);
    keys.insert(vec![1]);
    keys.insert(vec![2, 3]);
    assert!(keys.contains(&vec![1]));
    assert!(keys.contains(&vec![2, 3]));
    assert!(!keys.contains(&vec![2]));
}

#[test]
fn proofs_are_a_map() {
    let mut proofs = Proofs::new();
    assert_eq!(proofs.len(), 0);
    proofs.insert(vec![1], (leaf(1), leaf(2)));
    proofs.insert(vec![2], (leaf(3), leaf(4)));
    proofs.insert(vec![1], (leaf(5), leaf(6)));
    assert_eq!(proofs.len(), 2);
    assert!(proofs.contains(&vec![2]));
    assert!(!proofs.contains(&vec![3]));
    assert_eq!(proofs.get(&vec![1]), Some((leaf(5), leaf(6))));
    assert_eq!(proofs.get(&vec![3]), None);
    assert_eq!(proofs.entry(0), (vec![1], leaf(5), leaf(6)));
    assert_eq!(proofs.entry(1), (vec![2], leaf(3), leaf(4)));

    let mut other = Proofs::new();
    other.insert(vec![2], (leaf(3), leaf(4)));
    assert!(proofs != other);
    other.insert(vec![1], (leaf(5), leaf(6)));
    assert!(proofs == other);
    assert!(proofs.same(&other));
    assert_eq!(proofs.clone(), proofs);

    assert_eq!(proofs.remove(&vec![1]), Some((leaf(5), leaf(6))));
    assert_eq!(proofs.remove(&vec![1]), None);
    assert_eq!(proofs.len(), 1);
    assert!(proofs != other);
}

#[test]
fn proving_backend_records_reads_but_not_what_it_inserted() {
    let mut db = InMemory::default();
    let old_key = Sha256Construct::intermediate_of(&leaf(1), &leaf(2));
    db.insert(old_key.clone(), (leaf(1), leaf(2))).unwrap();

    let mut proving = ProvingBackend::new(&mut db);
    let new_key = Sha256Construct::intermediate_of(&leaf(3), &leaf(4));
    proving.insert(new_key.clone(), (leaf(3), leaf(4))).unwrap();
    assert_eq!(proving.get(&new_key), Ok((leaf(3), leaf(4))));
    assert_eq!(proving.proofs.len(), 0);
    assert_eq!(proving.get(&old_key), Ok((leaf(1), leaf(2))));
    assert_eq!(proving.get(&vec![0]), Err(Error::NotFound));
    assert_eq!(proving.proofs.len(), 1);
    assert_eq!(proving.proofs.get(&old_key), Some((leaf(1), leaf(2))));
    proving.rootify(&old_key).unwrap();
    proving.rootify(&old_key).unwrap();
    proving.unrootify(&old_key).unwrap();

    let proofs = proving.reset();
    assert_eq!(proofs.len(), 1);
    assert_eq!(proving.proofs.len(), 0);
    assert_eq!(proving.get(&new_key), Ok((leaf(3), leaf(4))));
    assert_eq!(proving.into_proofs().len(), 1);
    assert_eq!(db.len(), 2);
    assert_eq!(db.count(&old_key), Some(1));
}

#[test]
fn proof_of_a_read_answers_the_read() {
    let mut db = InMemory::default();
    let mut tree = Raw::<Owned, Sha256Construct>::default();
    for i in 16..32 {
        tree.set(&mut db, at(i), leaf(i as u8)).unwrap();
    }
    let root = tree.root();
    let mut proving = ProvingBackend::new(&mut db);
    assert_eq!(tree.get(&mut proving, at(21)), Ok(Some(leaf(21))));
    assert_eq!(tree.get(&mut proving, at(30)), Ok(Some(leaf(30))));
    let proofs = proving.into_proofs();
    assert_eq!(proofs.len(), 7);

    let mut proved = InMemory::default();
    proved.populate(&proofs, &root).unwrap();
    assert_eq!(proved.len(), 7);
    let again = Raw::<Owned, Sha256Construct>::from_leaked(root.clone());
    assert_eq!(again.get(&mut proved, at(21)), Ok(Some(leaf(21))));
    assert_eq!(again.get(&mut proved, at(30)), Ok(Some(leaf(30))));
    assert_eq!(again.get(&mut proved, at(16)), Err(Error::NotFound));
    assert_eq!(proved.count(&root.intermediate().unwrap()), Some(2));
}

#[test]
fn populate_refuses_another_pair_under_a_key() {
    let mut db = InMemory::default();
    let key = Sha256Construct::intermediate_of(&leaf(1), &leaf(2));
    db.insert(key.clone(), (leaf(1), leaf(2))).unwrap();
    let mut proofs = Proofs::new();
    proofs.insert(key.clone(), (leaf(2), leaf(1)));
    assert_eq!(db.populate(&proofs, &leaf(0)), Err(Error::CorruptedDatabase));
    let mut same = Proofs::new();
    same.insert(key.clone(), (leaf(1), leaf(2)));
    same.insert(vec![9], (leaf(7), Value::Intermediate(vec![8])));
    assert_eq!(db.populate(&same, &Value::Intermediate(vec![8])), Err(Error::NotFound));
    assert_eq!(db.populate(&same, &Value::Intermediate(vec![9])), Ok(()));
    assert_eq!(db.count(&key), Some(0));
    assert_eq!(db.count(&vec![9]), Some(2));
}

#[test]
fn compact_lists_pairs_from_the_root_down_left_first() {
    let mut db = InMemory::default();
    let mut tree = Raw::<Owned, Sha256Construct>::default();
    for i in 4..8 {
        tree.set(&mut db, at(i), leaf(i as u8)).unwrap();
    }
    let root = tree.root();
    let mut proving = ProvingBackend::new(&mut db);
    tree.get(&mut proving, at(7)).unwrap();
    tree.get(&mut proving, at(4)).unwrap();
    let proofs = proving.into_proofs();
    let compact = proofs.into_compact(root.clone());
    assert_eq!(compact.root, root);
    let left = tree.get(&mut db, at(2)).unwrap().unwrap();
    let right = tree.get(&mut db, at(3)).unwrap().unwrap();
    assert_eq!(
        compact.pairs,
        vec![(left, right), (leaf(4), leaf(5)), (leaf(6), leaf(7))]
    );
    let (back, back_root) = Proofs::from_compact::<Sha256Construct>(compact).unwrap();
    assert_eq!(back_root, root);
    assert_eq!(back, proofs);
}

#[test]
fn compact_lists_a_shared_node_once() {
    let mut db = InMemory::default();
    let mut tree = Raw::<Owned, Sha256Construct>::default();
    tree.set(&mut db, at(4), leaf(1)).unwrap();
    let sub = tree.get(&mut db, at(2)).unwrap().unwrap();
    tree.set(&mut db, at(3), sub.clone()).unwrap();
    let root = tree.root();
    let mut proving = ProvingBackend::new(&mut db);
    tree.get(&mut proving, at(4)).unwrap();
    tree.get(&mut proving, at(6)).unwrap();
    let proofs = proving.into_proofs();
    assert_eq!(proofs.len(), 2);
    let compact = proofs.into_compact(root.clone());
    assert_eq!(compact.pairs.len(), 2);
    let (back, _) = Proofs::from_compact::<Sha256Construct>(compact).unwrap();
    assert_eq!(back, proofs);
}

#[test]
fn compact_of_no_proofs_keeps_the_root() {
    let proofs = Proofs::new();
    let compact = proofs.into_compact(leaf(3));
    assert!(compact.pairs.is_empty());
    let (back, root) = Proofs::from_compact::<Sha256Construct>(compact).unwrap();
    assert_eq!(root, leaf(3));
    assert_eq!(back.len(), 0);
}

#[test]
fn compact_with_a_pair_that_belongs_nowhere_is_corrupted() {
    let key = Sha256Construct::intermediate_of(&leaf(1), &leaf(2));
    let good = Compact { root: Value::Intermediate(key.clone()), pairs: vec![(leaf(1), leaf(2))] };
    assert!(Proofs::from_compact::<Sha256Construct>(good).is_ok());
    let swapped = Compact { root: Value::Intermediate(key.clone()), pairs: vec![(leaf(2), leaf(1))] };
    assert!(matches!(
        Proofs::from_compact::<Sha256Construct>(swapped),
        Err(Error::CorruptedProof)
    ));
    let extra = Compact {
        root: Value::Intermediate(key),
        pairs: vec![(leaf(1), leaf(2)), (leaf(1), leaf(2))],
    };
    assert!(matches!(Proofs::from_compact::<Sha256Construct>(extra), Err(Error::CorruptedProof)));
    let rootless = Compact { root: leaf(1), pairs: vec![(leaf(1), leaf(2))] };
    assert!(matches!(
        Proofs::from_compact::<Sha256Construct>(rootless),
        Err(Error::CorruptedProof)
    ));
}
