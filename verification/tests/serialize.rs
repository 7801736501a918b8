use bm::serialize::{field_of, fields_of, vector_tree, FromTree, IntoTree, U256};
use bm::{
    Error, InMemoryBackend, MerkleTuple, Owned, Sha256Construct, Sha256WordConstruct, Value,
};

type InMemory = InMemoryBackend<Sha256WordConstruct>;

fn padded(bytes: &[u8]) -> Vec<u8> {
    let mut out = vec![0u8; 32];
    out[..bytes.len()].copy_from_slice(bytes);
    out
}

#[test]
fn uint_leaves_are_little_endian_and_zero_padded() {
    let mut db = InMemory::default();
    assert_eq!(0x0102u16.into_tree(&mut db).unwrap(), Value::End(padded(&[2, 1])));
    assert_eq!(0xa1b2c3d4u32.into_tree(&mut db).unwrap(), Value::End(padded(&[0xd4, 0xc3, 0xb2, 0xa1])));
    assert_eq!(7u8.into_tree(&mut db).unwrap(), Value::End(padded(&[7])));
    assert_eq!(
        0x0102030405060708u64.into_tree(&mut db).unwrap(),
        Value::End(padded(&[8, 7, 6, 5, 4, 3, 2, 1]))
    );
    assert_eq!(u128::MAX.into_tree(&mut db).unwrap(), Value::End(padded(&[0xff; 16])));
    assert!(db.is_empty());
}

#[test]
fn bool_leaves_are_one_and_zero() {
    let mut db = InMemory::default();
    assert_eq!(true.into_tree(&mut db).unwrap(), Value::End(padded(&[1])));
    assert_eq!(false.into_tree(&mut db).unwrap(), Value::End(padded(&[])));
    assert_eq!(bool::from_tree(&Value::End(padded(&[1])), &mut db), Ok(true));
    assert_eq!(bool::from_tree(&Value::End(padded(&[0])), &mut db), Ok(false));
    assert_eq!(bool::from_tree(&Value::End(padded(&[2])), &mut db), Ok(true));
}

#[test]
fn uints_round_trip() {
    let mut db = InMemory::default();
    for value in [0u64, 1, 255, 256, 0xdead_beef, u64::MAX] {
        let tree = value.into_tree(&mut db).unwrap();
        assert_eq!(u64::from_tree(&tree, &mut db), Ok(value));
    }
    for value in [0u8, 1, 200, u8::MAX] {
        let tree = value.into_tree(&mut db).unwrap();
        assert_eq!(u8::from_tree(&tree, &mut db), Ok(value));
    }
    for value in [0u16, 513, u16::MAX] {
        let tree = value.into_tree(&mut db).unwrap();
        assert_eq!(u16::from_tree(&tree, &mut db), Ok(value));
    }
    for value in [0u32, 0x01020304, u32::MAX] {
        let tree = value.into_tree(&mut db).unwrap();
        assert_eq!(u32::from_tree(&tree, &mut db), Ok(value));
    }
    for value in [0u128, 1 << 100, u128::MAX] {
        let tree = value.into_tree(&mut db).unwrap();
        assert_eq!(u128::from_tree(&tree, &mut db), Ok(value));
    }
}

#[test]
fn uint_reads_only_its_own_bytes() {
    let mut db = InMemory::default();
    let tree = 0x0102030405060708u64.into_tree(&mut db).unwrap();
    assert_eq!(u8::from_tree(&tree, &mut db), Ok(8));
    assert_eq!(u16::from_tree(&tree, &mut db), Ok(0x0708));
    assert_eq!(u32::from_tree(&tree, &mut db), Ok(0x05060708));
}

#[test]
fn scalars_reject_what_is_no_leaf_of_their_width() {
    let mut db = InMemory::default();
    assert_eq!(u64::from_tree(&Value::Intermediate(vec![1; 32]), &mut db), Err(Error::CorruptedDatabase));
    assert_eq!(u64::from_tree(&Value::End(vec![1; 7]), &mut db), Err(Error::CorruptedDatabase));
    assert_eq!(u64::from_tree(&Value::End(vec![1; 8]), &mut db), Ok(0x0101010101010101));
    assert_eq!(bool::from_tree(&Value::End(vec![]), &mut db), Err(Error::CorruptedDatabase));
    assert_eq!(u128::from_tree(&Value::End(vec![0; 15]), &mut db), Err(Error::CorruptedDatabase));
    assert!(U256::from_tree(&Value::End(vec![0; 31]), &mut db).is_err());
    assert!(U256::from_tree(&Value::Intermediate(vec![0; 32]), &mut db).is_err());
}

#[test]
fn word_leaves_are_little_endian() {
    let mut db = InMemory::default();
    let word = U256([0x0807060504030201, 0x100f0e0d0c0b0a09, 0x1817161514131211, 0x201f1e1d1c1b1a19]);
    let expected: Vec<u8> = (1u8..=32).collect();
    assert_eq!(word.into_tree(&mut db).unwrap(), Value::End(expected.clone()));
    assert_eq!(U256::from_tree(&Value::End(expected), &mut db).unwrap(), word);
}

#[test]
fn word_agrees_with_primitive_types() {
    let mut db = InMemory::default();
    let number = primitive_types::U256::from(0xdead_beefu64) * primitive_types::U256::from(u64::MAX);
    let tree = U256(number.0).into_tree(&mut db).unwrap();
    assert_eq!(tree, Value::End(number.to_little_endian().to_vec()));
    let back = U256::from_tree(&tree, &mut db).unwrap();
    assert_eq!(primitive_types::U256(back.0), number);
}

#[test]
fn word_reads_only_the_first_32_bytes() {
    let mut db = InMemory::default();
    let mut bytes = vec![0u8; 40];
    bytes[0] = 5;
    bytes[39] = 9;
    assert_eq!(U256::from_tree(&Value::End(bytes), &mut db).unwrap(), U256([5, 0, 0, 0]));
}

#[test]
fn tree_over_no_field_is_the_default_leaf() {
    let mut db = InMemory::default();
    let root = vector_tree::<Sha256WordConstruct, _>(&vec![], &mut db).unwrap();
    assert_eq!(root, Value::End(vec![0; 32]));
    assert!(db.is_empty());
}

#[test]
fn tree_over_one_field_is_the_field() {
    let mut db = InMemory::default();
    let field = 9u64.into_tree(&mut db).unwrap();
    let root = vector_tree::<Sha256WordConstruct, _>(&vec![field.clone()], &mut db).unwrap();
    assert_eq!(root, field);
    assert_eq!(field_of::<Sha256WordConstruct, _>(&root, &mut db, 0, 1).unwrap(), field);
}

#[test]
fn tree_over_fields_is_the_tuple_of_the_fields() {
    for count in 2usize..10 {
        let mut db = InMemory::default();
        let mut fields = Vec::new();
        for i in 0..count {
            fields.push((i as u64 + 100).into_tree(&mut db).unwrap());
        }
        let root = vector_tree::<Sha256WordConstruct, _>(&fields, &mut db).unwrap();

        let mut other = InMemory::default();
        let mut tuple = MerkleTuple::<Owned, Sha256WordConstruct>::create(&mut other, count).unwrap();
        for i in 0..count {
            tuple.set(&mut other, i, padded(&(i as u64 + 100).to_le_bytes())).unwrap();
        }
        assert_eq!(root, tuple.root());

        for i in 0..count {
            let field = field_of::<Sha256WordConstruct, _>(&root, &mut db, i, count).unwrap();
            assert_eq!(u64::from_tree(&field, &mut db), Ok(i as u64 + 100));
        }
        assert_eq!(
            field_of::<Sha256WordConstruct, _>(&root, &mut db, count, count),
            Err(Error::InvalidIndex)
        );
    }
}

#[test]
fn record_in_a_record() {
    let mut db = InMemoryBackend::<Sha256Construct>::default();
    let inner_fields = vec![Value::End(vec![1]), Value::End(vec![2]), Value::End(vec![3])];
    let inner = vector_tree::<Sha256Construct, _>(&inner_fields, &mut db).unwrap();
    let outer_fields = vec![Value::End(vec![9]), inner.clone()];
    let outer = vector_tree::<Sha256Construct, _>(&outer_fields, &mut db).unwrap();
    let read_inner = field_of::<Sha256Construct, _>(&outer, &mut db, 1, 2).unwrap();
    assert_eq!(read_inner, inner);
    assert_eq!(field_of::<Sha256Construct, _>(&read_inner, &mut db, 2, 3).unwrap(), Value::End(vec![3]));
    assert_eq!(field_of::<Sha256Construct, _>(&read_inner, &mut db, 3, 4).unwrap(), Value::End(vec![]));
}

#[test]
fn all_fields_are_read_in_declaration_order() {
    let mut db = InMemory::default();
    let fields = vec![
        7u8.into_tree(&mut db).unwrap(),
        true.into_tree(&mut db).unwrap(),
        0xabcdu16.into_tree(&mut db).unwrap(),
    ];
    let root = vector_tree::<Sha256WordConstruct, _>(&fields, &mut db).unwrap();
    assert_eq!(fields_of::<Sha256WordConstruct, _>(&root, &mut db, 3), Ok(fields.clone()));
    assert_eq!(fields_of::<Sha256WordConstruct, _>(&root, &mut db, 0), Ok(vec![]));
    let mut four = fields.clone();
    four.push(Value::End(vec![0; 32]));
    assert_eq!(fields_of::<Sha256WordConstruct, _>(&root, &mut db, 4), Ok(four));
    assert_eq!(
        fields_of::<Sha256WordConstruct, _>(&root, &mut db, 5),
        Err(Error::CorruptedDatabase)
    );
    assert_eq!(
        fields_of::<Sha256WordConstruct, _>(&Value::Intermediate(vec![1; 32]), &mut db, 2),
        Err(Error::NotFound)
    );
}
