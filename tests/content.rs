use comet::{Address, Anchor, Entry, Rejection, Store, StoreError};

const ALICE: Address = Address(1_000_000);
const BOB: Address = Address(2_000_000);

fn post(store: &mut Store, who: Address, tags: Vec<u64>) -> Address {
    store
        .create_post(who, "Hello!".to_string(), "body".to_string(), 5, &tags)
        .unwrap()
}

#[test]
fn created_post_reads_back() {
    let mut store = Store::new();
    let p = post(&mut store, ALICE, vec![1, 2]);
    let read = store.read_post(p).unwrap().unwrap();
    assert_eq!(read.title, "Hello!");
    assert_eq!(read.content, "body");
    assert_eq!(read.key_hash, ALICE);
    assert_eq!(read.timestamp, 5);
    assert_eq!(store.user_posts(ALICE), vec![p]);
    assert!(store.user_posts(BOB).is_empty());
}

#[test]
fn reading_nothing_and_the_wrong_kind() {
    let mut store = Store::new();
    assert!(store.read_post(Address(3)).unwrap().is_none());
    let p = post(&mut store, ALICE, vec![]);
    let c = store
        .create_comment(ALICE, "hi".to_string(), 6, p)
        .unwrap();
    assert_eq!(store.read_post(c).unwrap_err(), StoreError::WrongKind);
    assert_eq!(store.read_comment(p).unwrap_err(), StoreError::WrongKind);
    assert_eq!(store.read_comment(c).unwrap().unwrap().content, "hi");
}

#[test]
fn post_tags_split_original_and_crosspost() {
    let mut store = Store::new();
    let p = post(&mut store, ALICE, vec![1, 2]);
    store.crosspost(BOB, p, &vec![3, 4]).unwrap();
    let mut tags = store.post_tags(p);
    tags.original_tags.sort();
    tags.crosspost_tags.sort();
    assert_eq!(tags.original_tags, vec![1, 2]);
    assert_eq!(tags.crosspost_tags, vec![3, 4]);
}

#[test]
fn raw_post_of_another_author_is_refused() {
    let mut store = Store::new();
    let forged = comet::Post {
        title: "t".to_string(),
        content: "c".to_string(),
        key_hash: BOB,
        timestamp: 1,
    };
    assert_eq!(
        store.create_post_raw(ALICE, forged, &vec![1]),
        Err(StoreError::Rejected(Rejection::NotYours))
    );
    assert!(store.links().is_empty());
}

#[test]
fn only_the_author_updates_a_post() {
    let mut store = Store::new();
    let p = post(&mut store, ALICE, vec![1]);
    assert_eq!(
        store.update_post(BOB, p, "x".to_string(), "y".to_string(), 9),
        Err(StoreError::Rejected(Rejection::NotYours))
    );
    let q = store
        .update_post(ALICE, p, "x".to_string(), "y".to_string(), 9)
        .unwrap();
    assert_ne!(p, q);
    assert_eq!(store.read_post(q).unwrap().unwrap().title, "x");
    assert_eq!(store.read_post(p).unwrap().unwrap().title, "Hello!");
}

#[test]
fn updating_a_missing_or_other_entry() {
    let mut store = Store::new();
    assert_eq!(
        store.update_post(ALICE, Address(40), "x".to_string(), "y".to_string(), 1),
        Err(StoreError::NotFound)
    );
    let p = post(&mut store, ALICE, vec![]);
    let c = store.create_comment(ALICE, "hi".to_string(), 6, p).unwrap();
    assert_eq!(
        store.update_post(ALICE, c, "x".to_string(), "y".to_string(), 1),
        Err(StoreError::Rejected(Rejection::KindMismatch))
    );
}

#[test]
fn only_the_author_deletes_a_post() {
    let mut store = Store::new();
    let p = post(&mut store, ALICE, vec![]);
    assert_eq!(
        store.delete_post(BOB, p),
        Err(StoreError::Rejected(Rejection::NotYours))
    );
    assert_eq!(store.delete_post(ALICE, p), Ok(()));
    assert_eq!(store.delete_post(ALICE, Address(77)), Err(StoreError::NotFound));
}

#[test]
fn comments_link_both_ways() {
    let mut store = Store::new();
    let p = post(&mut store, ALICE, vec![]);
    let c = store.create_comment(BOB, "first".to_string(), 7, p).unwrap();
    let reply = store.create_comment(ALICE, "reply".to_string(), 8, c).unwrap();
    assert_eq!(store.comments_of(p), vec![c]);
    assert_eq!(store.comments_of(c), vec![reply]);
    assert!(store.comments_of(reply).is_empty());
}

#[test]
fn comment_needs_a_post_or_comment_target() {
    let mut store = Store::new();
    assert_eq!(
        store.create_comment(ALICE, "x".to_string(), 1, Address(5)),
        Err(StoreError::NotFound)
    );
    let a = store.anchor(ALICE, "tag", "1").unwrap();
    assert_eq!(
        store.create_comment(ALICE, "x".to_string(), 1, a),
        Err(StoreError::WrongKind)
    );
}

#[test]
fn deleted_comment_leaves_its_parent() {
    let mut store = Store::new();
    let p = post(&mut store, ALICE, vec![]);
    let c = store.create_comment(BOB, "first".to_string(), 7, p).unwrap();
    let d = store.create_comment(ALICE, "second".to_string(), 8, p).unwrap();
    assert_eq!(store.delete_comment(BOB, c), Ok(()));
    assert_eq!(store.comments_of(p), vec![d]);
    assert!(!store
        .links()
        .iter()
        .any(|l| (l.base == c && l.target == p) || (l.base == p && l.target == c)));
}

#[test]
fn deleting_a_reply_leaves_its_comment() {
    let mut store = Store::new();
    let p = post(&mut store, ALICE, vec![]);
    let c = store.create_comment(BOB, "first".to_string(), 7, p).unwrap();
    let reply = store.create_comment(ALICE, "reply".to_string(), 8, c).unwrap();
    assert_eq!(store.delete_comment(ALICE, reply), Ok(()));
    assert!(store.comments_of(c).is_empty());
    assert_eq!(store.comments_of(p), vec![c]);
}

#[test]
fn only_the_author_deletes_a_comment() {
    let mut store = Store::new();
    let p = post(&mut store, ALICE, vec![]);
    let c = store.create_comment(BOB, "first".to_string(), 7, p).unwrap();
    let links_before = store.links().len();
    assert_eq!(
        store.delete_comment(ALICE, c),
        Err(StoreError::Rejected(Rejection::NotYours))
    );
    assert_eq!(store.links().len(), links_before);
    assert_eq!(store.comments_of(p), vec![c]);
}

#[test]
fn only_the_author_updates_a_comment() {
    let mut store = Store::new();
    let p = post(&mut store, ALICE, vec![]);
    let c = store.create_comment(BOB, "first".to_string(), 7, p).unwrap();
    assert_eq!(
        store.update_comment(ALICE, c, "mine".to_string(), 8),
        Err(StoreError::Rejected(Rejection::NotYours))
    );
    let d = store.update_comment(BOB, c, "edited".to_string(), 8).unwrap();
    assert_eq!(store.read_comment(d).unwrap().unwrap().content, "edited");
}

#[test]
fn crosspost_onto_an_anchor_with_text_that_is_no_tag() {
    let mut store = Store::new();
    let odd = store.anchor(ALICE, "colour", "blue").unwrap();
    assert_eq!(
        store.crosspost(ALICE, odd, &vec![1]),
        Err(StoreError::Rejected(Rejection::InvalidTag))
    );
}

#[test]
fn tag_anchors_use_decimal_text() {
    let mut store = Store::new();
    post(&mut store, ALICE, vec![12]);
    assert!(store
        .address_of(&Entry::Anchor(Anchor::new("tag", "12")))
        .is_some());
}

#[test]
fn update_to_the_same_content_is_refused() {
    let mut store = Store::new();
    let p = post(&mut store, ALICE, vec![]);
    assert_eq!(
        store.update_post(ALICE, p, "Hello!".to_string(), "body".to_string(), 5),
        Err(StoreError::Unchanged)
    );
}

#[test]
fn fresh_post_has_only_original_tags_and_crosspost_keeps_them() {
    let mut store = Store::new();
    let p = post(&mut store, ALICE, vec![3, 1]);
    let tags = store.post_tags(p);
    let mut original = tags.original_tags.clone();
    original.sort();
    assert_eq!(original, vec![1, 3]);
    assert!(tags.crosspost_tags.is_empty());
    store.crosspost(BOB, p, &vec![5]).unwrap();
    let mut after = store.post_tags(p).original_tags;
    after.sort();
    assert_eq!(after, vec![1, 3]);
    assert_eq!(store.post_tags(p).crosspost_tags, vec![5]);
}

#[test]
fn tag_links_are_validated_for_any_writer() {
    let mut store = Store::new();
    let p = post(&mut store, ALICE, vec![]);
    let anchor = store.anchor(ALICE, "tag", "4").unwrap();
    let original = comet::Link { base: p, target: anchor, kind: comet::LinkKind::OriginalTag };
    assert_eq!(store.validate_link(ALICE, original), Ok(()));
    assert_eq!(store.validate_link(BOB, original), Err(Rejection::PostNotInChain));
    let cross = comet::Link { base: p, target: anchor, kind: comet::LinkKind::CrosspostTag };
    assert_eq!(store.validate_link(BOB, cross), Ok(()));
}

#[test]
fn type_anchor_hangs_under_the_root() {
    let mut store = Store::new();
    store.anchor(ALICE, "colour", "red").unwrap();
    let ty = store.address_of(&Entry::Anchor(Anchor::new("colour", ""))).unwrap();
    assert!(store.anchors_of_type("anchor_types").contains(&ty));
}
