use bm::{Index, IndexRoute, IndexSelection, InMemoryBackend, Owned, Raw, Sha256Construct, Value};

type Construct = Sha256Construct;
type InMemory = InMemoryBackend<Construct>;

#[test]
fn test_merkle_selections() {
    assert_eq!(Index::root().route(), IndexRoute::Root);
    assert_eq!(Index::root().left().route(),
               IndexRoute::Select(vec![
                   IndexSelection::Left
               ]));
    assert_eq!(Index::root().left().right().route(),
               IndexRoute::Select(vec![
                   IndexSelection::Left,
                   IndexSelection::Right,
               ]));
    assert_eq!(Index::root().right().left().left().route(),
               IndexRoute::Select(vec![
                   IndexSelection::Right,
                   IndexSelection::Left,
                   IndexSelection::Left,
               ]));
    assert_eq!(Index::root().left().left().right().left().route(),
               IndexRoute::Select(vec![
                   IndexSelection::Left,
                   IndexSelection::Left,
                   IndexSelection::Right,
                   IndexSelection::Left,
               ]));
    assert_eq!(Index::root().left().right().right().left().right().route(),
               IndexRoute::Select(vec![
                   IndexSelection::Left,
                   IndexSelection::Right,
                   IndexSelection::Right,
                   IndexSelection::Left,
                   IndexSelection::Right,
               ]));
}

#[test]
fn test_selection_at() {
    assert_eq!(Index::root().right().route().at_depth(1), Some(IndexSelection::Right));
}

#[test]
fn test_set_empty() {
    let mut db = InMemory::default();
    let mut list = Raw::<Owned, Construct>::default();

    let mut last_root = list.root();
    for _ in 0..3 {
        list.set(&mut db, Index::from_one(2).unwrap(), last_root.clone()).unwrap();
        list.set(&mut db, Index::from_one(3).unwrap(), last_root.clone()).unwrap();
        last_root = list.root();
    }
}

#[test]
fn test_set_skip() {
    let mut db = InMemory::default();
    let mut list = Raw::<Owned, Construct>::default();

    list.set(&mut db, Index::from_one(4).unwrap(), Value::End(vec![2])).unwrap();
    assert_eq!(list.get(&mut db, Index::from_one(4).unwrap()).unwrap(), Some(Value::End(vec![2])));
    list.set(&mut db, Index::from_one(4).unwrap(), Value::End(vec![3])).unwrap();
    assert_eq!(list.get(&mut db, Index::from_one(4).unwrap()).unwrap(), Some(Value::End(vec![3])));
}

#[test]
fn test_set_basic() {
    let mut db = InMemory::default();
    let mut list = Raw::<Owned, Construct>::default();

    for i in 4..8 {
        list.set(&mut db, Index::from_one(i).unwrap(), Value::End(vec![i as u8])).unwrap();
    }
}

#[test]
fn test_set_only() {
    let mut db1 = InMemory::default();
    let mut db2 = InMemory::default();
    let mut list1 = Raw::<Owned, Construct>::default();
    let mut list2 = Raw::<Owned, Construct>::default();

    for i in 32..64 {
        list1.set(&mut db1, Index::from_one(i).unwrap(), Value::End(vec![i as u8])).unwrap();
    }
    for i in (32..64).rev() {
        list2.set(&mut db2, Index::from_one(i).unwrap(), Value::End(vec![i as u8])).unwrap();
    }
    assert!(db1.same_contents(&db2));
    for i in 32..64 {
        let val1 = list1.get(&mut db1, Index::from_one(i).unwrap()).unwrap().unwrap();
        let val2 = list2.get(&mut db2, Index::from_one(i).unwrap()).unwrap().unwrap();
        assert_eq!(val1, Value::End(vec![i as u8]));
        assert_eq!(val2, Value::End(vec![i as u8]));
    }

    list1.set(&mut db1, Index::from_one(1).unwrap(), Value::End(vec![1])).unwrap();
    assert!(db1.is_empty());
}

#[test]
fn test_intermediate() {
    let mut db = InMemory::default();
    let mut list = Raw::<Owned, Construct>::default();
    list.set(&mut db, Index::from_one(2).unwrap(), Value::End(vec![])).unwrap();
    assert_eq!(list.get(&mut db, Index::from_one(3).unwrap()).unwrap().unwrap(), Value::End(vec![]));

    let empty1 = list.get(&mut db, Index::from_one(1).unwrap()).unwrap().unwrap();
    list.set(&mut db, Index::from_one(2).unwrap(), empty1.clone()).unwrap();
    list.set(&mut db, Index::from_one(3).unwrap(), empty1.clone()).unwrap();
    for i in 4..8 {
        assert_eq!(list.get(&mut db, Index::from_one(i).unwrap()).unwrap().unwrap(), Value::End(vec![]));
    }
    assert_eq!(db.len(), 2);

    let mut db1 = db.clone();
    let mut list1 = Raw::<Owned, Construct>::from_leaked(list.root());
    list.set(&mut db, Index::from_one(1).unwrap(), empty1.clone()).unwrap();
    assert_eq!(list.get(&mut db, Index::from_one(3).unwrap()).unwrap().unwrap(), Value::End(vec![]));
    assert_eq!(db.len(), 1);

    list1.set(&mut db1, Index::from_one(1).unwrap(), Value::End(vec![0])).unwrap();
    assert_eq!(list1.get(&mut db1, Index::from_one(1).unwrap()).unwrap().unwrap(), Value::End(vec![0]));
    assert!(db1.is_empty());
}
