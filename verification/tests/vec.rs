use bm::{InMemoryBackend, MerkleVec, Owned, Sha256Construct};

type InMemory = InMemoryBackend<Sha256Construct>;

fn end_of(value: usize) -> Vec<u8> {
    (value as u64).to_le_bytes().to_vec()
}

#[test]
fn test_push_pop() {
    let mut db = InMemory::default();
    let mut vec = MerkleVec::<Owned, Sha256Construct>::create(&mut db).unwrap();

    for i in 0..100 {
        assert_eq!(vec.len(), i);
        vec.push(&mut db, end_of(i)).unwrap();
    }
    assert_eq!(vec.len(), 100);
    for i in (0..100).rev() {
        let value = vec.pop(&mut db).unwrap();
        assert_eq!(value, Some(end_of(i)));
        assert_eq!(vec.len(), i);
    }
    assert_eq!(vec.len(), 0);
}

#[test]
fn test_set() {
    let mut db = InMemory::default();
    let mut vec = MerkleVec::<Owned, Sha256Construct>::create(&mut db).unwrap();

    for i in 0..100 {
        assert_eq!(vec.len(), i);
        vec.push(&mut db, Default::default()).unwrap();
    }

    for i in 0..100 {
        vec.set(&mut db, i, end_of(i)).unwrap();
    }
    for i in 0..100 {
        assert_eq!(vec.get(&mut db, i).unwrap(), end_of(i));
    }
}
