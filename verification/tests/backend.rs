use bm::digest::hash_pair;
use bm::scalar::{decode_le, encode_le, number_end};
use bm::store::PINNED;
use bm::{
    Construct, EmptyBackend, Error, InMemoryBackend, ReadBackend, Sha256Construct,
    Sha256WordConstruct, Value, WriteBackend,
};
use sha2::Digest;

type InMemory = InMemoryBackend<Sha256Construct>;

fn leaf(byte: u8) -> Value {
    Value::End(vec![byte])
}

fn node_of(db: &mut InMemory, left: Value, right: Value) -> Vec<u8> {
    let key = Sha256Construct::intermediate_of(&left, &right);
    db.insert(key.clone(), (left, right)).unwrap();
    key
}

#[test]
fn hash_is_sha256_of_the_framed_pair() {
    let left = Value::End(vec![7, 8]);
    let right = Value::Intermediate(vec![9; 32]);
    let mut data = vec![1u8, 2, 0, 0, 0, 0, 0, 0, 0, 7, 8];
    data.push(0);
    data.extend_from_slice(&32u64.to_le_bytes());
    data.extend_from_slice(&[9; 32]);
    let expected = sha2::Sha256::digest(&data).to_vec();
    assert_eq!(hash_pair(&left, &right), expected);
    assert_eq!(Sha256Construct::intermediate_of(&left, &right), expected);
    assert_eq!(Sha256WordConstruct::intermediate_of(&left, &right), expected);
    assert_eq!(expected.len(), 32);
}

#[test]
fn hash_tells_pairs_apart() {
    let a = hash_pair(&Value::End(vec![1]), &Value::End(vec![]));
    let b = hash_pair(&Value::End(vec![]), &Value::End(vec![1]));
    let c = hash_pair(&Value::Intermediate(vec![1]), &Value::End(vec![]));
    let d = hash_pair(&Value::End(vec![1, 0]), &Value::End(vec![]));
    assert_ne!(a, b);
    assert_ne!(a, c);
    assert_ne!(a, d);
    assert_eq!(a, hash_pair(&Value::End(vec![1]), &Value::End(vec![])));
}

#[test]
fn default_ends() {
    assert_eq!(Sha256Construct::default_end(), Vec::<u8>::new());
    assert_eq!(Sha256WordConstruct::default_end(), vec![0u8; 32]);
}

#[test]
fn get_of_an_unknown_key_is_not_found() {
    let mut db = InMemory::default();
    assert_eq!(db.get(&vec![1, 2, 3]), Err(Error::NotFound));
    assert!(db.is_empty());
    assert_eq!(db.len(), 0);
}

#[test]
fn insert_stores_the_pair_with_no_reference() {
    let mut db = InMemory::default();
    let key = node_of(&mut db, leaf(1), leaf(2));
    assert_eq!(db.get(&key), Ok((leaf(1), leaf(2))));
    assert_eq!(db.count(&key), Some(0));
    assert_eq!(db.len(), 1);
    assert!(!db.is_empty());
}

#[test]
fn insert_is_idempotent_on_the_key() {
    let mut db = InMemory::default();
    let key = node_of(&mut db, leaf(1), leaf(2));
    let before = db.clone();
    assert_eq!(db.insert(key.clone(), (leaf(1), leaf(2))), Ok(()));
    assert!(db.same_contents(&before));
}

#[test]
fn insert_of_another_pair_under_a_key_is_corruption() {
    let mut db = InMemory::default();
    let key = node_of(&mut db, leaf(1), leaf(2));
    let before = db.clone();
    assert_eq!(db.insert(key.clone(), (leaf(2), leaf(1))), Err(Error::CorruptedDatabase));
    assert!(db.same_contents(&before));
}

#[test]
fn insert_with_an_unknown_child_is_not_found() {
    let mut db = InMemory::default();
    let missing = Value::Intermediate(vec![5; 32]);
    assert_eq!(db.insert(vec![1], (missing.clone(), leaf(1))), Err(Error::NotFound));
    assert_eq!(db.insert(vec![1], (leaf(1), missing)), Err(Error::NotFound));
    assert!(db.is_empty());
}

#[test]
fn insert_takes_a_reference_on_each_child() {
    let mut db = InMemory::default();
    let child = node_of(&mut db, leaf(1), leaf(2));
    let parent = node_of(&mut db, Value::Intermediate(child.clone()), leaf(3));
    assert_eq!(db.count(&child), Some(1));
    assert_eq!(db.count(&parent), Some(0));
    let twin = node_of(&mut db, Value::Intermediate(child.clone()), Value::Intermediate(child.clone()));
    assert_eq!(db.count(&child), Some(3));
    assert_eq!(db.count(&twin), Some(0));
}

#[test]
fn rootify_and_unrootify() {
    let mut db = InMemory::default();
    assert_eq!(db.rootify(&vec![1]), Err(Error::NotFound));
    assert_eq!(db.unrootify(&vec![1]), Err(Error::NotFound));
    let key = node_of(&mut db, leaf(1), leaf(2));
    db.rootify(&key).unwrap();
    db.rootify(&key).unwrap();
    assert_eq!(db.count(&key), Some(2));
    db.unrootify(&key).unwrap();
    assert_eq!(db.count(&key), Some(1));
    db.unrootify(&key).unwrap();
    assert_eq!(db.count(&key), None);
    assert!(db.is_empty());
}

#[test]
fn unrootify_releases_the_children_in_turn() {
    let mut db = InMemory::default();
    let low = node_of(&mut db, leaf(1), leaf(2));
    let other = node_of(&mut db, leaf(3), leaf(4));
    let top = node_of(&mut db, Value::Intermediate(low.clone()), Value::Intermediate(other.clone()));
    db.rootify(&top).unwrap();
    db.rootify(&other).unwrap();
    assert_eq!(db.len(), 3);
    db.unrootify(&top).unwrap();
    assert_eq!(db.count(&top), None);
    assert_eq!(db.count(&low), None);
    assert_eq!(db.count(&other), Some(1));
    assert_eq!(db.len(), 1);
}

#[test]
fn unrootify_of_an_entry_without_reference_removes_it() {
    let mut db = InMemory::default();
    let key = node_of(&mut db, leaf(1), leaf(2));
    db.unrootify(&key).unwrap();
    assert!(db.is_empty());
}

#[test]
fn empty_at_is_the_chain_of_empty_trees() {
    let mut db = InMemory::default();
    let blank = Value::End(vec![]);
    assert_eq!(db.empty_at(0), Ok(blank.clone()));
    assert!(db.is_empty());
    let one = Value::Intermediate(Sha256Construct::intermediate_of(&blank, &blank));
    let two = Value::Intermediate(Sha256Construct::intermediate_of(&one, &one));
    assert_eq!(
        <InMemory as EmptyBackend<Sha256Construct>>::empty_at(&mut db, 2),
        Ok(two.clone())
    );
    assert_eq!(db.len(), 2);
    assert_eq!(db.get(&two.intermediate().unwrap()), Ok((one.clone(), one.clone())));
    assert_eq!(db.count(&one.intermediate().unwrap()), Some(PINNED));
    assert_eq!(<InMemory as EmptyBackend<Sha256Construct>>::empty_at(&mut db, 2), Ok(two));
    assert_eq!(db.len(), 2);
}

#[test]
fn pinned_entries_stay() {
    let mut db = InMemory::default();
    let one = <InMemory as EmptyBackend<Sha256Construct>>::empty_at(&mut db, 1).unwrap();
    let key = one.intermediate().unwrap();
    db.rootify(&key).unwrap();
    assert_eq!(db.count(&key), Some(PINNED));
    db.unrootify(&key).unwrap();
    db.unrootify(&key).unwrap();
    assert_eq!(db.count(&key), Some(PINNED));
    assert_eq!(db.len(), 1);
}

#[test]
fn same_contents_looks_at_pairs_and_counts() {
    let mut a = InMemory::default();
    let mut b = InMemory::default();
    let x = node_of(&mut a, leaf(1), leaf(2));
    let y = node_of(&mut a, leaf(3), leaf(4));
    node_of(&mut b, leaf(3), leaf(4));
    assert!(!a.same_contents(&b));
    assert!(!b.same_contents(&a));
    node_of(&mut b, leaf(1), leaf(2));
    assert!(a.same_contents(&b));
    a.rootify(&x).unwrap();
    assert!(!a.same_contents(&b));
    b.rootify(&x).unwrap();
    assert!(a.same_contents(&b));
    assert_eq!(a.count(&y), Some(0));
}

#[test]
fn values_know_their_variant() {
    let inner = Value::Intermediate(vec![1, 2]);
    let end = Value::End(vec![3]);
    assert_eq!(inner.intermediate(), Some(vec![1, 2]));
    assert_eq!(inner.end(), None);
    assert_eq!(end.intermediate(), None);
    assert_eq!(end.end(), Some(vec![3]));
    assert!(inner.same(&Value::Intermediate(vec![1, 2])));
    assert!(!inner.same(&Value::End(vec![1, 2])));
    assert!(!end.same(&Value::End(vec![3, 0])));
    assert_eq!(inner.clone(), inner);
}

#[test]
fn little_endian_leaves() {
    assert_eq!(encode_le(0x0102, 4), vec![2, 1, 0, 0]);
    assert_eq!(encode_le(0x010203, 2), vec![3, 2]);
    assert_eq!(encode_le(5, 0), Vec::<u8>::new());
    assert_eq!(decode_le(&vec![2, 1, 9], 2), 0x0102);
    assert_eq!(decode_le(&vec![0xff; 16], 16), u128::MAX);
    assert_eq!(decode_le(&vec![7], 0), 0);
    assert_eq!(number_end::<Sha256Construct>(100), vec![100, 0, 0, 0, 0, 0, 0, 0]);
    let mut word = vec![0u8; 32];
    word[0] = 100;
    assert_eq!(number_end::<Sha256WordConstruct>(100), word);
}
