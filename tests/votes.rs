use comet::{Address, Fraction, Rejection, Store, StoreError};

const ALICE: Address = Address(1_000_000);
const BOB: Address = Address(2_000_000);

fn half() -> Fraction {
    Fraction { millionths: 500_000 }
}

fn target(store: &mut Store) -> Address {
    store
        .create_post(BOB, "p".to_string(), "c".to_string(), 1, &vec![7])
        .unwrap()
}

#[test]
fn second_vote_in_same_tag_updates_the_first() {
    let mut store = Store::new();
    let t = target(&mut store);
    let first = store.vote(ALICE, 10, half(), &vec![7], t).unwrap();
    let second = store
        .vote(ALICE, 11, Fraction { millionths: -250_000 }, &vec![7], t)
        .unwrap();
    assert_ne!(first, second);
    assert_eq!(store.votes_of(t).len(), 1);
    let mine = store.get_my_vote(ALICE, t, &vec![7]).unwrap();
    assert_eq!(mine.fraction, Fraction { millionths: -250_000 });
    assert_eq!(store.find_my_vote(ALICE, t, &vec![7]), Some(second));
}

#[test]
fn identical_second_vote_keeps_the_vote() {
    let mut store = Store::new();
    let t = target(&mut store);
    let first = store.vote(ALICE, 10, half(), &vec![7], t).unwrap();
    let second = store.vote(ALICE, 10, half(), &vec![7], t).unwrap();
    assert_eq!(first, second);
    assert_eq!(store.find_my_vote(ALICE, t, &vec![7]), Some(first));
    assert_eq!(store.votes_of(t).len(), 1);
}

#[test]
fn votes_in_disjoint_tags_are_independent() {
    let mut store = Store::new();
    let t = target(&mut store);
    let first = store.vote(ALICE, 10, half(), &vec![7], t).unwrap();
    let second = store.vote(ALICE, 11, half(), &vec![8, 9], t).unwrap();
    assert_ne!(first, second);
    assert_eq!(store.votes_of(t).len(), 2);
    assert_eq!(store.find_my_vote(ALICE, t, &vec![7]), Some(first));
    assert_eq!(store.find_my_vote(ALICE, t, &vec![9]), Some(second));
    assert_eq!(store.find_my_vote(ALICE, t, &vec![1]), None);
}

#[test]
fn votes_of_different_authors_are_independent() {
    let mut store = Store::new();
    let t = target(&mut store);
    let a = store.vote(ALICE, 10, half(), &vec![7], t).unwrap();
    let b = store.vote(BOB, 10, half(), &vec![7], t).unwrap();
    assert_ne!(a, b);
    assert_eq!(store.votes_of(t).len(), 2);
    assert!(store.get_my_vote(ALICE, t, &vec![8]).is_none());
}

#[test]
fn fraction_beyond_one_is_refused() {
    let mut store = Store::new();
    let t = target(&mut store);
    assert_eq!(
        store.vote(ALICE, 10, Fraction { millionths: 1_500_000 }, &vec![7], t),
        Err(StoreError::Rejected(Rejection::FractionOutOfRange))
    );
    assert_eq!(
        store.vote(ALICE, 10, Fraction { millionths: -1_000_001 }, &vec![7], t),
        Err(StoreError::Rejected(Rejection::FractionOutOfRange))
    );
    assert!(store.votes_of(t).is_empty());
}

#[test]
fn fraction_bounds_are_inclusive() {
    let mut store = Store::new();
    let t = target(&mut store);
    assert!(store
        .vote(ALICE, 10, Fraction { millionths: 1_000_000 }, &vec![1], t)
        .is_ok());
    assert!(store
        .vote(ALICE, 10, Fraction { millionths: -1_000_000 }, &vec![2], t)
        .is_ok());
}

#[test]
fn update_to_an_out_of_range_fraction_is_refused() {
    let mut store = Store::new();
    let t = target(&mut store);
    store.vote(ALICE, 10, half(), &vec![7], t).unwrap();
    assert_eq!(
        store.vote(ALICE, 11, Fraction { millionths: 2_000_000 }, &vec![7], t),
        Err(StoreError::Rejected(Rejection::FractionOutOfRange))
    );
    assert_eq!(
        store.get_my_vote(ALICE, t, &vec![7]).unwrap().fraction,
        half()
    );
}

#[test]
fn vote_sharing_tags_with_two_active_votes_is_refused() {
    let mut store = Store::new();
    let t = target(&mut store);
    let seven = store.vote(ALICE, 10, half(), &vec![7], t).unwrap();
    let eight = store.vote(ALICE, 11, half(), &vec![8], t).unwrap();
    assert_eq!(
        store.vote(ALICE, 12, half(), &vec![7, 8], t),
        Err(StoreError::Rejected(Rejection::AlreadyVoted))
    );
    assert_eq!(store.find_my_vote(ALICE, t, &vec![7]), Some(seven));
    assert_eq!(store.find_my_vote(ALICE, t, &vec![8]), Some(eight));
}

#[test]
fn vote_link_without_shared_tag_is_valid() {
    let mut store = Store::new();
    let t = target(&mut store);
    store.vote(ALICE, 10, half(), &vec![7], t).unwrap();
    let other = store.vote(ALICE, 11, half(), &vec![8], t).unwrap();
    // a vote link is fine for a vote that shares no tag with another one
    let link = comet::Link { base: t, target: other, kind: comet::LinkKind::Vote };
    assert_eq!(store.validate_link(ALICE, link), Ok(()));
}
