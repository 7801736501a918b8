use bm::packed::{compact_from_tree, compact_into_tree, mix_in_length, pack, split_length, unpack};
use bm::serialize::vector_tree;
use bm::{Construct, Error, InMemoryBackend, PackedVec, Sha256WordConstruct, Value};

type C = Sha256WordConstruct;
type InMemory = InMemoryBackend<C>;

#[test]
fn pack_fills_leaves_of_32_bytes() {
    assert_eq!(pack(&vec![]), Vec::<Value>::new());
    let mut one = vec![0u8; 32];
    one[0] = 7;
    assert_eq!(pack(&vec![7]), vec![Value::End(one)]);
    let bytes: Vec<u8> = (0u8..40).collect();
    let mut second = vec![0u8; 32];
    second[..8].copy_from_slice(&bytes[32..]);
    assert_eq!(pack(&bytes), vec![Value::End(bytes[..32].to_vec()), Value::End(second)]);
    assert_eq!(pack(&vec![1; 64]).len(), 2);
    assert_eq!(pack(&vec![1; 65]).len(), 3);
}

#[test]
fn unpack_gives_the_bytes_back() {
    for len in [0usize, 1, 31, 32, 33, 64, 100] {
        let bytes: Vec<u8> = (0..len).map(|i| (i * 7 + 1) as u8).collect();
        assert_eq!(unpack(&pack(&bytes), len), Ok(bytes));
    }
}

#[test]
fn unpack_rejects_what_was_not_packed() {
    assert_eq!(unpack(&vec![Value::End(vec![0; 32])], 0), Err(Error::CorruptedDatabase));
    assert_eq!(unpack(&vec![Value::End(vec![0; 32])], 33), Err(Error::CorruptedDatabase));
    assert_eq!(unpack(&vec![Value::End(vec![0; 31])], 5), Err(Error::CorruptedDatabase));
    assert_eq!(unpack(&vec![Value::Intermediate(vec![0; 32])], 5), Err(Error::CorruptedDatabase));
    assert_eq!(unpack(&vec![Value::End(vec![9; 32])], 5), Ok(vec![9; 5]));
}

#[test]
fn length_is_mixed_in_above_the_root() {
    let mut db = InMemory::default();
    let inner = Value::End(vec![3; 32]);
    let root = mix_in_length::<C, _>(inner.clone(), 5, &mut db).unwrap();
    let mut length = vec![0u8; 32];
    length[0] = 5;
    assert_eq!(root, Value::Intermediate(C::intermediate_of(&inner, &Value::End(length))));
    assert_eq!(split_length::<C, _>(&root, &mut db), Ok((inner.clone(), 5)));
    assert_eq!(split_length::<C, _>(&inner, &mut db), Err(Error::CorruptedDatabase));
    assert_eq!(
        split_length::<C, _>(&Value::Intermediate(vec![1; 32]), &mut db),
        Err(Error::NotFound)
    );
}

#[test]
fn compact_byte_strings_round_trip() {
    for len in [0usize, 1, 32, 33, 48, 96, 200] {
        let mut db = InMemory::default();
        let bytes: Vec<u8> = (0..len).map(|i| (i + 1) as u8).collect();
        let root = compact_into_tree::<C, _>(&bytes, &mut db).unwrap();
        assert_eq!(compact_from_tree::<C, _>(&root, &mut db), Ok(bytes.clone()));
        let inner = vector_tree::<C, _>(&pack(&bytes), &mut db).unwrap();
        assert_eq!(split_length::<C, _>(&root, &mut db), Ok((inner, len)));
    }
}

#[test]
fn compact_form_of_48_bytes_is_two_leaves_and_a_length() {
    let mut db = InMemory::default();
    let bytes = vec![0xabu8; 48];
    let root = compact_into_tree::<C, _>(&bytes, &mut db).unwrap();
    let first = Value::End(vec![0xab; 32]);
    let mut rest = vec![0u8; 32];
    rest[..16].copy_from_slice(&[0xab; 16]);
    let inner = Value::Intermediate(C::intermediate_of(&first, &Value::End(rest)));
    let mut length = vec![0u8; 32];
    length[0] = 48;
    assert_eq!(root, Value::Intermediate(C::intermediate_of(&inner, &Value::End(length))));
    assert_eq!(db.len(), 2);
}

fn element(i: usize) -> Vec<u8> {
    (i as u64 + 1).to_le_bytes().to_vec()
}

#[test]
fn packed_vector_takes_widths_that_fill_a_block() {
    for width in [1usize, 2, 4, 8, 16, 32] {
        let mut db = InMemory::default();
        let vec = PackedVec::<bm::Owned, C>::create(&mut db, width).unwrap();
        assert_eq!(vec.width(), width);
        assert_eq!(vec.len(), 0);
    }
    for width in [0usize, 3, 5, 24, 33, 64] {
        let mut db = InMemory::default();
        assert!(matches!(
            PackedVec::<bm::Owned, C>::create(&mut db, width),
            Err(Error::InvalidIndex)
        ));
    }
}

#[test]
fn packed_vector_crams_elements_into_blocks() {
    let mut db = InMemory::default();
    let mut vec = PackedVec::<bm::Owned, C>::create(&mut db, 8).unwrap();
    for i in 0..5 {
        vec.push(&mut db, element(i)).unwrap();
    }
    let mut first = Vec::new();
    for i in 0..4 {
        first.extend_from_slice(&element(i));
    }
    let mut second = element(4);
    second.extend_from_slice(&[0u8; 24]);
    let blocks = Value::Intermediate(C::intermediate_of(&Value::End(first), &Value::End(second)));
    let mut length = vec![0u8; 32];
    length[0] = 5;
    assert_eq!(vec.root(), Value::Intermediate(C::intermediate_of(&blocks, &Value::End(length))));
}

#[test]
fn packed_vector_push_get_set_pop() {
    let mut db = InMemory::default();
    let mut vec = PackedVec::<bm::Owned, C>::create(&mut db, 8).unwrap();
    assert_eq!(vec.pop(&mut db), Ok(None));
    for i in 0..23 {
        assert_eq!(vec.len(), i);
        vec.push(&mut db, element(i)).unwrap();
    }
    for i in 0..23 {
        assert_eq!(vec.get(&mut db, i), Ok(element(i)));
    }
    assert_eq!(vec.get(&mut db, 23), Err(Error::InvalidIndex));
    vec.set(&mut db, 9, element(100)).unwrap();
    assert_eq!(vec.get(&mut db, 9), Ok(element(100)));
    assert_eq!(vec.get(&mut db, 8), Ok(element(8)));
    assert_eq!(vec.get(&mut db, 10), Ok(element(10)));
    vec.set(&mut db, 9, element(9)).unwrap();
    assert_eq!(vec.set(&mut db, 23, element(1)), Err(Error::InvalidIndex));
    assert_eq!(vec.set(&mut db, 0, vec![1, 2, 3]), Err(Error::InvalidIndex));
    assert_eq!(vec.push(&mut db, vec![1, 2, 3]), Err(Error::InvalidIndex));
    for i in (0..23).rev() {
        assert_eq!(vec.pop(&mut db), Ok(Some(element(i))));
        assert_eq!(vec.len(), i);
    }
    let mut other = InMemory::default();
    let fresh = PackedVec::<bm::Owned, C>::create(&mut other, 8).unwrap();
    assert_eq!(vec.root(), fresh.root());
    vec.drop(&mut db).unwrap();
}

#[test]
fn packed_vector_of_bytes() {
    let mut db = InMemory::default();
    let mut vec = PackedVec::<bm::Owned, C>::create(&mut db, 1).unwrap();
    for i in 0..70u8 {
        vec.push(&mut db, vec![i]).unwrap();
    }
    for i in 0..70u8 {
        assert_eq!(vec.get(&mut db, i as usize), Ok(vec![i]));
    }
    assert_eq!(vec.pop(&mut db), Ok(Some(vec![69])));
    assert_eq!(vec.len(), 69);
}
