use vstd::prelude::*;
use crate::types::{Address, Entry, EntryView};

verus! {

/// Why a write is refused.
#[derive(Clone, Copy, Debug, PartialEq, Eq, Structural)]
pub enum Rejection {
    /// A signer of the write, or of the write it changes, is not the
    /// entry's author.
    NotYours,
    /// A vote's fraction lies outside -1 to 1.
    FractionOutOfRange,
    /// Anchors are never modified nor deleted.
    AnchorReadOnly,
    /// A modification would replace an entry by one of another kind.
    KindMismatch,
    /// A tag link ends at an anchor whose text is not a tag.
    InvalidTag,
    /// A link ends at an address that holds no entry of the expected kind.
    NotExpectedEntry,
    /// An original tag link for a post that is not in the writer's history.
    PostNotInChain,
    /// An author link from an identity that is not the entry's author.
    AuthorMismatch,
    /// The writer already holds an active vote on the target in terms of
    /// one of the same tags.
    AlreadyVoted,
}

impl Rejection {
    /// The reason given to the writer.
    pub open spec fn reason_text(self) -> Seq<char> {
        match self {
            Rejection::NotYours => "Cannot alter an entry that is not yours."@,
            Rejection::FractionOutOfRange => "Vote fraction must be between 1 and -1"@,
            Rejection::AnchorReadOnly => "Anchors are read-only"@,
            Rejection::KindMismatch => "An entry can only be replaced by one of its kind"@,
            Rejection::InvalidTag => "`anchor_text` is not a valid tag."@,
            Rejection::NotExpectedEntry => "Link does not reach an entry of the expected kind"@,
            Rejection::PostNotInChain => "Could not find post in chain."@,
            Rejection::AuthorMismatch => "Cannot link to an entry from an author not in `key_hash`"@,
            Rejection::AlreadyVoted => "You've already voted on this thing in that way"@,
        }
    }

    pub fn reason(&self) -> (r: &'static str)
        ensures
            r@ == self.reason_text(),
    {
        match self {
            Rejection::NotYours => "Cannot alter an entry that is not yours.",
            Rejection::FractionOutOfRange => "Vote fraction must be between 1 and -1",
            Rejection::AnchorReadOnly => "Anchors are read-only",
            Rejection::KindMismatch => "An entry can only be replaced by one of its kind",
            Rejection::InvalidTag => "`anchor_text` is not a valid tag.",
            Rejection::NotExpectedEntry => "Link does not reach an entry of the expected kind",
            Rejection::PostNotInChain => "Could not find post in chain.",
            Rejection::AuthorMismatch => "Cannot link to an entry from an author not in `key_hash`",
            Rejection::AlreadyVoted => "You've already voted on this thing in that way",
        }
    }
}

/// Every signer in `provenances` is `key`.
pub open spec fn signed_by(provenances: Seq<Address>, key: Address) -> bool {
    forall|i: int| 0 <= i < provenances.len() ==> provenances[i] == key
}

/// The verdict on committing a new entry.
pub open spec fn create_verdict(e: EntryView, provenances: Seq<Address>) -> Result<(), Rejection> {
    match e {
        EntryView::Anchor(_) => Ok(()),
        EntryView::Post(p) => if signed_by(provenances, p.key_hash) {
            Ok(())
        } else {
            Err(Rejection::NotYours)
        },
        EntryView::Comment(c) => if signed_by(provenances, c.key_hash) {
            Ok(())
        } else {
            Err(Rejection::NotYours)
        },
        EntryView::Vote(v) => if !signed_by(provenances, v.key_hash) {
            Err(Rejection::NotYours)
        } else if !v.fraction.in_range() {
            Err(Rejection::FractionOutOfRange)
        } else {
            Ok(())
        },
    }
}

/// The verdict on replacing `old` by `new`; `old_provenances` signed the
/// write of `old`, `provenances` sign the modification.
pub open spec fn modify_verdict(
    old: EntryView,
    new: EntryView,
    provenances: Seq<Address>,
    old_provenances: Seq<Address>,
) -> Result<(), Rejection> {
    let owned = |k: Address| signed_by(provenances, k) && signed_by(old_provenances, k);
    match (old, new) {
        (EntryView::Anchor(_), _) => Err(Rejection::AnchorReadOnly),
        (EntryView::Post(o), EntryView::Post(n)) => if o.key_hash == n.key_hash && owned(o.key_hash) {
            Ok(())
        } else {
            Err(Rejection::NotYours)
        },
        (EntryView::Comment(o), EntryView::Comment(n)) => if o.key_hash == n.key_hash && owned(
            o.key_hash,
        ) {
            Ok(())
        } else {
            Err(Rejection::NotYours)
        },
        (EntryView::Vote(o), EntryView::Vote(n)) => if !(o.key_hash == n.key_hash && owned(
            o.key_hash,
        )) {
            Err(Rejection::NotYours)
        } else if !n.fraction.in_range() {
            Err(Rejection::FractionOutOfRange)
        } else {
            Ok(())
        },
        _ => Err(Rejection::KindMismatch),
    }
}

/// The verdict on deleting `old`.
pub open spec fn delete_verdict(
    old: EntryView,
    provenances: Seq<Address>,
    old_provenances: Seq<Address>,
) -> Result<(), Rejection> {
    match old.key_hash() {
        None => Err(Rejection::AnchorReadOnly),
        Some(k) => if signed_by(provenances, k) && signed_by(old_provenances, k) {
            Ok(())
        } else {
            Err(Rejection::NotYours)
        },
    }
}

/// Whether every signer in `provenances` is `key`.
pub fn all_signed_by(provenances: &Vec<Address>, key: Address) -> (r: bool)
    ensures
        r == signed_by(provenances@, key),
{
    let mut i: usize = 0;
    while i < provenances.len()
        invariant
            i <= provenances.len(),
            forall|j: int| 0 <= j < i ==> provenances@[j] == key,
        decreases provenances.len() - i,
    {
        if provenances[i] != key {
            return false;
        }
        i = i + 1;
    }
    true
}

/// Validates the commit of a new entry.
pub fn validate_create(entry: &Entry, provenances: &Vec<Address>) -> (r: Result<(), Rejection>)
    ensures
        r == create_verdict(entry@, provenances@),
{
    match entry {
        Entry::Anchor(_) => Ok(()),
        Entry::Post(p) => if all_signed_by(provenances, p.key_hash) {
            Ok(())
        } else {
            Err(Rejection::NotYours)
        },
        Entry::Comment(c) => if all_signed_by(provenances, c.key_hash) {
            Ok(())
        } else {
            Err(Rejection::NotYours)
        },
        Entry::Vote(v) => if !all_signed_by(provenances, v.key_hash) {
            Err(Rejection::NotYours)
        } else if !v.fraction.is_in_range() {
            Err(Rejection::FractionOutOfRange)
        } else {
            Ok(())
        },
    }
}

/// Validates replacing `old` by `new`.
pub fn validate_modify(
    old: &Entry,
    new: &Entry,
    provenances: &Vec<Address>,
    old_provenances: &Vec<Address>,
) -> (r: Result<(), Rejection>)
    ensures
        r == modify_verdict(old@, new@, provenances@, old_provenances@),
{
    let (old_key, new_key) = match (old, new) {
        (Entry::Anchor(_), _) => {
            return Err(Rejection::AnchorReadOnly);
        },
        (Entry::Post(o), Entry::Post(n)) => (o.key_hash, n.key_hash),
        (Entry::Comment(o), Entry::Comment(n)) => (o.key_hash, n.key_hash),
        (Entry::Vote(o), Entry::Vote(n)) => (o.key_hash, n.key_hash),
        _ => {
            return Err(Rejection::KindMismatch);
        },
    };
    if !(old_key == new_key && all_signed_by(provenances, old_key) && all_signed_by(
        old_provenances,
        old_key,
    )) {
        return Err(Rejection::NotYours);
    }
    match new {
        Entry::Vote(n) => if n.fraction.is_in_range() {
            Ok(())
        } else {
            Err(Rejection::FractionOutOfRange)
        },
        _ => Ok(()),
    }
}

/// Validates deleting `old`.
pub fn validate_delete(
    old: &Entry,
    provenances: &Vec<Address>,
    old_provenances: &Vec<Address>,
) -> (r: Result<(), Rejection>)
    ensures
        r == delete_verdict(old@, provenances@, old_provenances@),
{
    match old.key_hash() {
        None => Err(Rejection::AnchorReadOnly),
        Some(k) => if all_signed_by(provenances, k) && all_signed_by(old_provenances, k) {
            Ok(())
        } else {
            Err(Rejection::NotYours)
        },
    }
}

} // verus!
