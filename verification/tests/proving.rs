use bm::{InMemoryBackend, MerkleVec, Owned, Proofs, ProvingBackend, Sha256WordConstruct};

type InMemory = InMemoryBackend<Sha256WordConstruct>;

fn word(value: usize) -> Vec<u8> {
    let mut bytes = [0u8; 32];
    (&mut bytes[0..8]).copy_from_slice(&(value as u64).to_le_bytes()[..]);
    bytes.to_vec()
}

#[test]
fn basic_proving_vec() {
    let mut db = InMemory::default();
    let mut proving = ProvingBackend::new(&mut db);
    let mut vec = MerkleVec::<Owned, Sha256WordConstruct>::create(&mut proving).unwrap();

    for i in 0..100 {
        assert_eq!(vec.len(), i);
        vec.push(&mut proving, word(i)).unwrap();
    }
    drop(proving);

    let mut proving = ProvingBackend::new(&mut db);
    vec.get(&mut proving, 5).unwrap();
    vec.get(&mut proving, 7).unwrap();
    let vec_hash = vec.deconstruct(&mut proving).unwrap();
    let proofs = proving.into_proofs();
    let compact_proofs = proofs.into_compact(vec_hash.clone());
    let (uncompacted_proofs, uncompacted_vec_hash) =
        Proofs::from_compact::<Sha256WordConstruct>(compact_proofs).unwrap();
    assert_eq!(vec_hash, uncompacted_vec_hash);
    assert_eq!(proofs, uncompacted_proofs);

    let mut proved = InMemory::default();
    proved.populate(&proofs, &vec_hash).unwrap();
    let proved_vec =
        MerkleVec::<Owned, Sha256WordConstruct>::reconstruct(vec_hash, &mut proved).unwrap();
    assert_eq!(proved_vec.get(&mut proved, 5).unwrap(), word(5));
    assert_eq!(proved_vec.get(&mut proved, 7).unwrap(), word(7));
}
