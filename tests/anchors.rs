use comet::{Address, Anchor, Entry, Store, StoreError};

const ALICE: Address = Address(1_000_000);

#[test]
fn anchor_twice_gives_same_address_and_one_leaf() {
    let mut store = Store::new();
    let first = store.anchor(ALICE, "colour", "blue").unwrap();
    let count_after_first = store.links().len();
    let second = store.anchor(ALICE, "colour", "blue").unwrap();
    assert_eq!(first, second);
    assert_eq!(store.links().len(), count_after_first);
    let leaves = store.anchors_of_type("colour");
    assert_eq!(leaves, vec![first]);
}

#[test]
fn anchor_builds_root_type_and_leaf() {
    let mut store = Store::new();
    let leaf = store.anchor(ALICE, "tag", "5").unwrap();
    assert!(store.anchors_of_type("tag").contains(&leaf));
    let root = store.address_of(&Entry::Anchor(Anchor::new("anchor_types", "")));
    let type_anchor = store.address_of(&Entry::Anchor(Anchor::new("tag", "")));
    assert!(root.is_some());
    assert!(type_anchor.is_some());
    assert!(store.anchor_exists(root.unwrap()));
    assert!(store.anchor_exists(type_anchor.unwrap()));
    assert!(store.anchors_of_type("anchor_types").contains(&type_anchor.unwrap()));
}

#[test]
fn anchors_of_unknown_type_is_empty_and_creates_nothing() {
    let mut store = Store::new();
    store.anchor(ALICE, "tag", "1").unwrap();
    let before = store.links().len();
    assert!(store.anchors_of_type("colour").is_empty());
    assert_eq!(store.links().len(), before);
    assert!(store
        .address_of(&Entry::Anchor(Anchor::new("colour", "")))
        .is_none());
}

#[test]
fn anchors_of_type_lists_every_leaf() {
    let mut store = Store::new();
    let a = store.anchor(ALICE, "tag", "1").unwrap();
    let b = store.anchor(ALICE, "tag", "2").unwrap();
    let c = store.anchor(ALICE, "colour", "red").unwrap();
    let tags = store.anchors_of_type("tag");
    assert_eq!(tags.len(), 2);
    assert!(tags.contains(&a) && tags.contains(&b));
    assert_eq!(store.anchors_of_type("colour"), vec![c]);
    assert_ne!(a, b);
}

#[test]
fn anchor_exists_is_false_for_an_empty_address() {
    let store = Store::new();
    assert!(!store.anchor_exists(Address(0)));
}

#[test]
fn anchors_cannot_be_deleted() {
    let mut store = Store::new();
    let a = store.anchor(ALICE, "tag", "1").unwrap();
    assert_eq!(
        store.delete_post(ALICE, a),
        Err(StoreError::Rejected(comet::Rejection::AnchorReadOnly))
    );
}
