use comet::{
    validate_create, validate_delete, validate_modify, Address, Anchor, Comment, Entry, Fraction,
    Post, Rejection, Vote,
};

const ALICE: Address = Address(1);
const BOB: Address = Address(2);

fn post_by(who: Address) -> Entry {
    Entry::Post(Post {
        title: "t".to_string(),
        content: "c".to_string(),
        key_hash: who,
        timestamp: 0,
    })
}

fn vote_by(who: Address, millionths: i64) -> Entry {
    Entry::Vote(Vote {
        fraction: Fraction { millionths },
        in_terms_of: vec![1],
        target_hash: Address(9),
        key_hash: who,
        timestamp: 0,
    })
}

#[test]
fn create_needs_every_signer_to_be_the_author() {
    assert_eq!(validate_create(&post_by(ALICE), &vec![ALICE]), Ok(()));
    assert_eq!(validate_create(&post_by(ALICE), &vec![]), Ok(()));
    assert_eq!(
        validate_create(&post_by(ALICE), &vec![ALICE, BOB]),
        Err(Rejection::NotYours)
    );
    let comment = Entry::Comment(Comment {
        content: "c".to_string(),
        key_hash: BOB,
        timestamp: 0,
    });
    assert_eq!(validate_create(&comment, &vec![ALICE]), Err(Rejection::NotYours));
    assert_eq!(
        validate_create(&Entry::Anchor(Anchor::new("tag", "1")), &vec![BOB]),
        Ok(())
    );
}

#[test]
fn create_vote_checks_fraction_after_signers() {
    assert_eq!(validate_create(&vote_by(ALICE, 0), &vec![ALICE]), Ok(()));
    assert_eq!(
        validate_create(&vote_by(ALICE, 1_500_000), &vec![ALICE]),
        Err(Rejection::FractionOutOfRange)
    );
    assert_eq!(
        validate_create(&vote_by(ALICE, 1_500_000), &vec![BOB]),
        Err(Rejection::NotYours)
    );
}

#[test]
fn modify_keeps_the_author() {
    assert_eq!(
        validate_modify(&post_by(ALICE), &post_by(ALICE), &vec![ALICE], &vec![ALICE]),
        Ok(())
    );
    assert_eq!(
        validate_modify(&post_by(ALICE), &post_by(BOB), &vec![BOB], &vec![ALICE]),
        Err(Rejection::NotYours)
    );
    assert_eq!(
        validate_modify(&post_by(ALICE), &post_by(ALICE), &vec![BOB], &vec![ALICE]),
        Err(Rejection::NotYours)
    );
    assert_eq!(
        validate_modify(&post_by(ALICE), &post_by(ALICE), &vec![ALICE], &vec![BOB]),
        Err(Rejection::NotYours)
    );
    assert_eq!(
        validate_modify(&post_by(ALICE), &vote_by(ALICE, 0), &vec![ALICE], &vec![ALICE]),
        Err(Rejection::KindMismatch)
    );
    assert_eq!(
        validate_modify(&vote_by(ALICE, 0), &vote_by(ALICE, -2_000_000), &vec![ALICE], &vec![ALICE]),
        Err(Rejection::FractionOutOfRange)
    );
    assert_eq!(
        validate_modify(
            &Entry::Anchor(Anchor::new("tag", "1")),
            &Entry::Anchor(Anchor::new("tag", "2")),
            &vec![],
            &vec![]
        ),
        Err(Rejection::AnchorReadOnly)
    );
}

#[test]
fn delete_needs_the_author() {
    assert_eq!(validate_delete(&post_by(ALICE), &vec![ALICE], &vec![ALICE]), Ok(()));
    assert_eq!(
        validate_delete(&post_by(ALICE), &vec![BOB], &vec![ALICE]),
        Err(Rejection::NotYours)
    );
    assert_eq!(
        validate_delete(&Entry::Anchor(Anchor::new("tag", "1")), &vec![ALICE], &vec![ALICE]),
        Err(Rejection::AnchorReadOnly)
    );
}

#[test]
fn rejections_give_a_reason() {
    assert_eq!(
        Rejection::FractionOutOfRange.reason(),
        "Vote fraction must be between 1 and -1"
    );
    assert_eq!(Rejection::AnchorReadOnly.reason(), "Anchors are read-only");
    assert_ne!(Rejection::NotYours.reason(), Rejection::AlreadyVoted.reason());
}
