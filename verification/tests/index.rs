use bm::{Error, Index, IndexRoute, IndexSelection};

#[test]
fn index_zero_is_rejected() {
    assert_eq!(Index::from_one(0), Err(Error::InvalidIndex));
}

#[test]
fn index_one_is_the_root() {
    assert_eq!(Index::from_one(1), Ok(Index::root()));
    assert_eq!(Index::root().value(), 1);
    assert_eq!(Index::root().route(), IndexRoute::Root);
    assert_eq!(Index::root().route().len(), 0);
}

#[test]
fn children_are_twice_and_twice_plus_one() {
    let node = Index::from_one(5).unwrap();
    assert_eq!(node.left().value(), 10);
    assert_eq!(node.right().value(), 11);
    assert_eq!(Index::root().left().right().left().value(), 10);
}

#[test]
fn route_is_the_bits_after_the_leading_one() {
    assert_eq!(
        Index::from_one(5).unwrap().route(),
        IndexRoute::Select(vec![IndexSelection::Left, IndexSelection::Right])
    );
    assert_eq!(
        Index::from_one(0b1_1001).unwrap().route(),
        IndexRoute::Select(vec![
            IndexSelection::Right,
            IndexSelection::Left,
            IndexSelection::Left,
            IndexSelection::Right,
        ])
    );
    assert_eq!(Index::from_one(usize::MAX).unwrap().route().len(), (usize::BITS - 1) as usize);
}

#[test]
fn at_depth_counts_from_one() {
    let route = Index::from_one(0b1_011).unwrap().route();
    assert_eq!(route.at_depth(0), None);
    assert_eq!(route.at_depth(1), Some(IndexSelection::Left));
    assert_eq!(route.at_depth(2), Some(IndexSelection::Right));
    assert_eq!(route.at_depth(3), Some(IndexSelection::Right));
    assert_eq!(route.at_depth(4), None);
    assert_eq!(IndexRoute::Root.at_depth(1), None);
}

#[test]
fn errors_describe_themselves() {
    assert_eq!(Error::InvalidIndex.describe(), "invalid index");
    assert_eq!(Error::NotFound.describe(), "intermediate not found");
    assert_eq!(Error::CorruptedDatabase.describe(), "corrupted database");
    assert_eq!(Error::CorruptedProof.describe(), "corrupted proof");
    assert_eq!(Error::Backend(3).describe(), "backend error");
}
