use bm::tuple::shape_of;
use bm::{
    Construct, Dangling, EmptyBackend, Error, InMemoryBackend, MerkleTuple, MerkleVec, Owned,
    Sha256Construct, Sha256WordConstruct, Value,
};

type InMemory = InMemoryBackend<Sha256Construct>;
type Tuple = MerkleTuple<Owned, Sha256Construct>;

#[test]
fn shape_is_the_least_power_of_two() {
    assert_eq!(shape_of(0), Some((1, 0)));
    assert_eq!(shape_of(1), Some((1, 0)));
    assert_eq!(shape_of(2), Some((2, 1)));
    assert_eq!(shape_of(3), Some((4, 2)));
    assert_eq!(shape_of(4), Some((4, 2)));
    assert_eq!(shape_of(5), Some((8, 3)));
    assert_eq!(shape_of(100), Some((128, 7)));
    assert_eq!(shape_of(usize::MAX / 2 + 1), None);
    assert_eq!(shape_of(usize::MAX / 4 + 1), Some((usize::MAX / 4 + 1, (usize::BITS - 2) as usize)));
    assert_eq!(shape_of(usize::MAX / 4 + 2), None);
}

#[test]
fn created_tuple_is_the_empty_tree() {
    for len in [0usize, 1, 2, 3, 5, 8, 9] {
        let mut db = InMemory::default();
        let tuple = Tuple::create(&mut db, len).unwrap();
        let depth = shape_of(len).unwrap().1;
        let mut other = InMemory::default();
        let empty =
            <InMemory as EmptyBackend<Sha256Construct>>::empty_at(&mut other, depth).unwrap();
        assert_eq!(tuple.root(), empty);
        assert_eq!(tuple.empty_root(), empty);
        assert_eq!(tuple.len(), len);
        assert!(db.same_contents(&other));
        assert_eq!(db.len(), depth);
        for i in 0..len {
            assert_eq!(tuple.get(&mut db, i), Ok(vec![]));
        }
        assert_eq!(tuple.get(&mut db, len), Err(Error::InvalidIndex));
    }
}

#[test]
fn tuple_that_does_not_fit_is_rejected() {
    let mut db = InMemory::default();
    assert!(matches!(Tuple::create(&mut db, usize::MAX), Err(Error::InvalidIndex)));
    let mut huge = Tuple::from_leaked(Value::End(vec![]), Value::End(vec![]), usize::MAX);
    assert_eq!(huge.get(&mut db, 0), Err(Error::InvalidIndex));
    assert_eq!(huge.set(&mut db, 0, vec![1]), Err(Error::InvalidIndex));
    assert_eq!(huge.push(&mut db, vec![1]), Err(Error::InvalidIndex));
    assert_eq!(huge.pop(&mut db), Err(Error::InvalidIndex));
}

#[test]
fn tuple_set_and_get() {
    let mut db = InMemory::default();
    let mut tuple = Tuple::create(&mut db, 5).unwrap();
    for i in 0..5 {
        tuple.set(&mut db, i, vec![i as u8 + 1]).unwrap();
    }
    for i in 0..5 {
        assert_eq!(tuple.get(&mut db, i), Ok(vec![i as u8 + 1]));
        assert_eq!(tuple.get_value(&mut db, i), Ok(Value::End(vec![i as u8 + 1])));
    }
    assert_eq!(tuple.set(&mut db, 5, vec![1]), Err(Error::InvalidIndex));
    assert_eq!(tuple.get_value(&mut db, 5), Err(Error::InvalidIndex));
    assert_eq!(tuple.len(), 5);
}

#[test]
fn tuple_grows_and_shrinks_by_levels() {
    let mut db = InMemory::default();
    let mut tuple = Tuple::create(&mut db, 0).unwrap();
    assert_eq!(tuple.pop(&mut db), Ok(None));
    for i in 0..9usize {
        tuple.push(&mut db, vec![i as u8]).unwrap();
        assert_eq!(tuple.len(), i + 1);
        let depth = shape_of(i + 1).unwrap().1;
        let mut other = InMemory::default();
        let empty =
            <InMemory as EmptyBackend<Sha256Construct>>::empty_at(&mut other, depth).unwrap();
        assert_eq!(tuple.empty_root(), empty);
        for j in 0..=i {
            assert_eq!(tuple.get(&mut db, j), Ok(vec![j as u8]));
        }
    }
    for i in (0..9usize).rev() {
        assert_eq!(tuple.pop(&mut db), Ok(Some(vec![i as u8])));
        assert_eq!(tuple.len(), i);
        for j in 0..i {
            assert_eq!(tuple.get(&mut db, j), Ok(vec![j as u8]));
        }
    }
    assert_eq!(tuple.root(), Value::End(vec![]));
    tuple.drop(&mut db).unwrap();
}

#[test]
fn pushed_tuple_is_the_created_tuple_with_the_same_leaves() {
    let mut db = InMemory::default();
    let mut pushed = Tuple::create(&mut db, 0).unwrap();
    for i in 0..6u8 {
        pushed.push(&mut db, vec![i]).unwrap();
    }
    let mut other = InMemory::default();
    let mut made = Tuple::create(&mut other, 6).unwrap();
    for i in 0..6u8 {
        made.set(&mut other, i as usize, vec![i]).unwrap();
    }
    assert_eq!(pushed.root(), made.root());
}

#[test]
fn tuple_leaks_and_comes_back() {
    let mut db = InMemory::default();
    let mut tuple = Tuple::create(&mut db, 3).unwrap();
    tuple.set(&mut db, 1, vec![8]).unwrap();
    let (root, empty, len) = tuple.leak();
    let again = MerkleTuple::<Dangling, Sha256Construct>::from_leaked(root.clone(), empty.clone(), len);
    assert_eq!(again.root(), root);
    assert_eq!(again.empty_root(), empty);
    assert_eq!(again.len(), 3);
    assert_eq!(again.get(&mut db, 1), Ok(vec![8]));
}

#[test]
fn tuple_get_of_an_inner_node_is_corruption() {
    let mut db = InMemory::default();
    let tuple = Tuple::create(&mut db, 4).unwrap();
    let wrong = MerkleTuple::<Dangling, Sha256Construct>::from_leaked(tuple.root(), tuple.empty_root(), 2);
    assert_eq!(wrong.get(&mut db, 0), Err(Error::CorruptedDatabase));
    assert!(matches!(wrong.get_value(&mut db, 0), Ok(Value::Intermediate(_))));
    let deep = MerkleTuple::<Dangling, Sha256Construct>::from_leaked(tuple.root(), tuple.empty_root(), 8);
    assert_eq!(deep.get(&mut db, 0), Err(Error::CorruptedDatabase));
    assert_eq!(deep.get_value(&mut db, 0), Err(Error::CorruptedDatabase));
}

#[test]
fn vector_root_commits_to_leaves_and_length() {
    let mut db = InMemory::default();
    let mut vec = MerkleVec::<Owned, Sha256Construct>::create(&mut db).unwrap();
    let blank = Value::End(vec![]);
    let zero = Value::End(vec![0; 8]);
    assert_eq!(vec.root(), Value::Intermediate(Sha256Construct::intermediate_of(&blank, &zero)));
    vec.push(&mut db, vec![7]).unwrap();
    let one = Value::End(vec![1, 0, 0, 0, 0, 0, 0, 0]);
    assert_eq!(
        vec.root(),
        Value::Intermediate(Sha256Construct::intermediate_of(&Value::End(vec![7]), &one))
    );
    assert_eq!(vec.pop(&mut db), Ok(Some(vec![7])));
    assert_eq!(vec.root(), Value::Intermediate(Sha256Construct::intermediate_of(&blank, &zero)));
    assert_eq!(vec.pop(&mut db), Ok(None));
    assert_eq!(vec.len(), 0);
}

#[test]
fn vector_rejects_what_is_out_of_range() {
    let mut db = InMemory::default();
    let mut vec = MerkleVec::<Owned, Sha256Construct>::create(&mut db).unwrap();
    vec.push(&mut db, vec![1]).unwrap();
    assert_eq!(vec.get(&mut db, 1), Err(Error::InvalidIndex));
    assert_eq!(vec.set(&mut db, 1, vec![2]), Err(Error::InvalidIndex));
    assert_eq!(vec.get(&mut db, 0), Ok(vec![1]));
}

#[test]
fn vector_leaks_and_comes_back() {
    let mut db = InMemory::default();
    let mut vec = MerkleVec::<Owned, Sha256Construct>::create(&mut db).unwrap();
    for i in 0..5u8 {
        vec.push(&mut db, vec![i]).unwrap();
    }
    let root = vec.root();
    let (raw_root, tuple_root, empty_root, len) = vec.leak();
    assert_eq!(raw_root, root);
    assert_eq!(len, 5);
    let mut again = MerkleVec::<Owned, Sha256Construct>::from_leaked(raw_root, tuple_root, empty_root, len);
    assert_eq!(again.root(), root);
    assert_eq!(again.get(&mut db, 4), Ok(vec![4]));
    again.set(&mut db, 4, vec![9]).unwrap();
    assert_eq!(again.get(&mut db, 4), Ok(vec![9]));
    assert_ne!(again.root(), root);
    again.drop(&mut db).unwrap();
}

#[test]
fn vector_is_found_again_from_its_root() {
    let mut db = InMemoryBackend::<Sha256WordConstruct>::default();
    let mut vec = MerkleVec::<Owned, Sha256WordConstruct>::create(&mut db).unwrap();
    for i in 0..11u8 {
        vec.push(&mut db, vec![i; 32]).unwrap();
    }
    let root = vec.deconstruct(&mut db).unwrap();
    let again = MerkleVec::<Dangling, Sha256WordConstruct>::reconstruct(root.clone(), &mut db).unwrap();
    assert_eq!(again.len(), 11);
    assert_eq!(again.root(), root);
    for i in 0..11u8 {
        assert_eq!(again.get(&mut db, i as usize), Ok(vec![i; 32]));
    }
}

#[test]
fn reconstruct_rejects_what_is_no_vector() {
    let mut db = InMemory::default();
    let leaf = Value::End(vec![1]);
    assert!(matches!(
        MerkleVec::<Dangling, Sha256Construct>::reconstruct(leaf, &mut db),
        Err(Error::CorruptedDatabase)
    ));
    assert!(matches!(
        MerkleVec::<Dangling, Sha256Construct>::reconstruct(Value::Intermediate(vec![1; 32]), &mut db),
        Err(Error::NotFound)
    ));
    let short = Value::End(vec![1, 0, 0]);
    let key = Sha256Construct::intermediate_of(&Value::End(vec![]), &short);
    bm::WriteBackend::insert(&mut db, key.clone(), (Value::End(vec![]), short)).unwrap();
    assert!(matches!(
        MerkleVec::<Dangling, Sha256Construct>::reconstruct(Value::Intermediate(key), &mut db),
        Err(Error::CorruptedDatabase)
    ));
    let long = Value::End(vec![1, 0, 0, 0, 0, 0, 0, 0, 0]);
    let key = Sha256Construct::intermediate_of(&Value::End(vec![]), &long);
    bm::WriteBackend::insert(&mut db, key.clone(), (Value::End(vec![]), long)).unwrap();
    assert!(matches!(
        MerkleVec::<Dangling, Sha256Construct>::reconstruct(Value::Intermediate(key), &mut db),
        Err(Error::CorruptedDatabase)
    ));
}
