use vstd::prelude::*;
use crate::store::{
    lemma_status_trans,deleted, lemma_grows_trans, updated, Link, LinkKind, Store, StoreError, StoreView};
use crate::types::{Address, Comment, CommentView, Entry, EntryView};
use crate::validation::{delete_verdict, Rejection};

verus! {

broadcast use {vstd::seq_lib::lemma_seq_contains_after_push, vstd::seq_lib::lemma_seq_concat_contains_all_elements};

/// The kinds of the links between a target and a comment on it: from the
/// target, and back from the comment.
pub open spec fn comment_kinds(target: EntryView) -> (LinkKind, LinkKind) {
    if target is Post {
        (LinkKind::CommentOnPost, LinkKind::ChildOfPost)
    } else {
        (LinkKind::CommentOnComment, LinkKind::ChildOfComment)
    }
}

/// `c` is among the comments on `a`.
pub open spec fn comment_listed(s: StoreView, a: Address, c: Address) -> bool {
    s.linked(a, c, LinkKind::CommentOnPost) || s.linked(a, c, LinkKind::CommentOnComment)
}

/// `x` is a parent of comment `c`.
pub open spec fn is_parent(s: StoreView, c: Address, x: Address) -> bool {
    s.linked(c, x, LinkKind::ChildOfPost) || s.linked(c, x, LinkKind::ChildOfComment)
}

/// No link joins comment `c` and `x` as comment and parent, either way.
pub open spec fn unlinked_from(s: StoreView, c: Address, x: Address) -> bool {
    &&& !s.linked(x, c, LinkKind::CommentOnPost)
    &&& !s.linked(x, c, LinkKind::CommentOnComment)
    &&& !s.linked(c, x, LinkKind::ChildOfPost)
    &&& !s.linked(c, x, LinkKind::ChildOfComment)
}

/// `l` is one of the four links that can join comment `c` and parent `x`.
pub open spec fn joins(c: Address, x: Address, l: Link) -> bool {
    ||| l == (Link { base: x, target: c, kind: LinkKind::CommentOnPost })
    ||| l == (Link { base: x, target: c, kind: LinkKind::CommentOnComment })
    ||| l == (Link { base: c, target: x, kind: LinkKind::ChildOfPost })
    ||| l == (Link { base: c, target: x, kind: LinkKind::ChildOfComment })
}

/// `l` joins comment `c` and one of its parents in `s`.
pub open spec fn parent_link(s: StoreView, c: Address, l: Link) -> bool {
    exists|x: Address| is_parent(s, c, x) && #[trigger] joins(c, x, l)
}

/// `s1` and `r` are what deleting comment `c` by `caller` in `s0` gives:
/// refused as a deletion would be, with nothing changed; else every link
/// between `c` and a parent of it gone, no other link touched, and `c`
/// marked deleted.
pub open spec fn comment_deleted(s0: StoreView, s1: StoreView, caller: Address, c: Address, r: Result<(), StoreError>) -> bool {
    if !s0.has(c) {
        r == Err::<(), StoreError>(StoreError::NotFound) && s1 == s0
    } else {
        match delete_verdict(s0.entry(c), seq![caller], seq![s0.authors[c.0 as int]]) {
            Err(why) => r == Err::<(), StoreError>(StoreError::Rejected(why)) && s1 == s0,
            Ok(_) => {
                &&& r == Ok::<(), StoreError>(())
                &&& s1.entries == s0.entries
                &&& s1.status == s0.status.update(c.0 as int, crate::store::Status::Deleted)
                &&& forall|x: Address| is_parent(s0, c, x) ==> unlinked_from(s1, c, x)
                &&& forall|l: Link| #[trigger] s1.links.contains(l) <==> s0.links.contains(l) && !parent_link(s0, c, l)
            },
        }
    }
}

impl Store {
    /// Creates `comment` on `target`, a post or a comment, linked both
    /// ways to it and from its author.
    pub fn create_comment_raw(&mut self, caller: Address, comment: Comment, target: Address) -> (r: Result<Address, StoreError>)
        requires
            old(self)@.wf(),
        ensures
            final(self)@.wf(),
            old(self)@.grows_to(final(self)@),
            old(self)@.keeps_status_of(final(self)@),
            !old(self)@.has(target) ==> r == Err::<Address, StoreError>(StoreError::NotFound) && final(self)@ == old(self)@,
            old(self)@.has(target) && !(old(self)@.entry(target) is Post || old(self)@.entry(target) is Comment)
                ==> r == Err::<Address, StoreError>(StoreError::WrongKind) && final(self)@ == old(self)@,
            old(self)@.has(target) && comment.key_hash != caller ==> (r == Err::<Address, StoreError>(
                StoreError::Rejected(Rejection::NotYours),
            ) || r == Err::<Address, StoreError>(StoreError::WrongKind)) && final(self)@ == old(self)@,
            r matches Ok(c) ==> {
                &&& final(self)@.has(c)
                &&& final(self)@.entry(c) == EntryView::Comment(comment@)
                &&& final(self)@.linked(target, c, comment_kinds(old(self)@.entry(target)).0)
                &&& final(self)@.linked(c, target, comment_kinds(old(self)@.entry(target)).1)
                &&& final(self)@.linked(caller, c, LinkKind::CommentAuthor)
            },
            old(self)@.has(target) && (old(self)@.entry(target) is Post || old(self)@.entry(target) is Comment)
                && comment.key_hash == caller ==> (r is Err ==> r == Err::<Address, StoreError>(StoreError::Full)),
            old(self)@.has(target) && (old(self)@.entry(target) is Post || old(self)@.entry(target) is Comment)
                && comment.key_hash == caller && old(self)@.entries.len() + 1 < u64::MAX ==> r is Ok,
    {
        let ghost s0 = self@;
        let (on_kind, child_kind) = match self.get(target) {
            None => {
                return Err(StoreError::NotFound);
            },
            Some(Entry::Post(_)) => (LinkKind::CommentOnPost, LinkKind::ChildOfPost),
            Some(Entry::Comment(_)) => (LinkKind::CommentOnComment, LinkKind::ChildOfComment),
            Some(_) => {
                return Err(StoreError::WrongKind);
            },
        };
        assert((on_kind, child_kind) == comment_kinds(s0.entry(target)));
        assert(seq![caller][0] == caller);
        assert(crate::validation::signed_by(seq![caller], comment.key_hash) == (comment.key_hash == caller));
        let ghost cv = EntryView::Comment(comment@);
        let c = match self.commit(caller, Entry::Comment(comment)) {
            Ok(c) => c,
            Err(e) => {
                return Err(e);
            },
        };
        let ghost s1 = self@;
        match self.add_link(caller, Link { base: target, target: c, kind: on_kind }) {
            Ok(()) => {},
            Err(e) => {
                return Err(e);
            },
        }
        let ghost s2 = self@;
        match self.add_link(caller, Link { base: c, target, kind: child_kind }) {
            Ok(()) => {},
            Err(e) => {
                proof {
                    lemma_grows_trans(s0, s1, s2);
                    lemma_status_trans(s0, s1, s2);
                    lemma_grows_trans(s0, s2, self@);
                    lemma_status_trans(s0, s2, self@);
                }
                return Err(e);
            },
        }
        let ghost s3 = self@;
        assert(s3.entry(c) == cv);
        match self.add_link(caller, Link { base: caller, target: c, kind: LinkKind::CommentAuthor }) {
            Ok(()) => {},
            Err(e) => {
                proof {
                    lemma_grows_trans(s0, s1, s2);
                    lemma_status_trans(s0, s1, s2);
                    lemma_grows_trans(s0, s2, s3);
                    lemma_status_trans(s0, s2, s3);
                    lemma_grows_trans(s0, s3, self@);
                    lemma_status_trans(s0, s3, self@);
                }
                return Err(e);
            },
        }
        proof {
            lemma_grows_trans(s0, s1, s2);
            lemma_status_trans(s0, s1, s2);
            lemma_grows_trans(s0, s2, s3);
            lemma_status_trans(s0, s2, s3);
            lemma_grows_trans(s0, s3, self@);
            lemma_status_trans(s0, s3, self@);
            assert(s3.linked(target, c, on_kind));
        }
        Ok(c)
    }

    /// Creates a comment by `caller` with the given text and creation time
    /// on `target`.
    pub fn create_comment(&mut self, caller: Address, content: String, utc_unix_time: u64, target: Address) -> (r: Result<Address, StoreError>)
        requires
            old(self)@.wf(),
        ensures
            final(self)@.wf(),
            old(self)@.grows_to(final(self)@),
            old(self)@.keeps_status_of(final(self)@),
            !old(self)@.has(target) ==> r == Err::<Address, StoreError>(StoreError::NotFound),
            old(self)@.has(target) && !(old(self)@.entry(target) is Post || old(self)@.entry(target) is Comment)
                ==> r == Err::<Address, StoreError>(StoreError::WrongKind),
            r matches Ok(c) ==> {
                &&& final(self)@.has(c)
                &&& final(self)@.entry(c) == EntryView::Comment(
                    CommentView { content: content@, key_hash: caller, timestamp: utc_unix_time },
                )
                &&& final(self)@.linked(target, c, comment_kinds(old(self)@.entry(target)).0)
                &&& final(self)@.linked(c, target, comment_kinds(old(self)@.entry(target)).1)
                &&& final(self)@.linked(caller, c, LinkKind::CommentAuthor)
            },
            old(self)@.has(target) && (old(self)@.entry(target) is Post || old(self)@.entry(target) is Comment)
                ==> (r is Err ==> r == Err::<Address, StoreError>(StoreError::Full)),
            old(self)@.has(target) && (old(self)@.entry(target) is Post || old(self)@.entry(target) is Comment)
                && old(self)@.entries.len() + 1 < u64::MAX ==> r is Ok,
    {
        let comment = Comment { content, key_hash: caller, timestamp: utc_unix_time };
        self.create_comment_raw(caller, comment, target)
    }

    /// The comment at `address`: `None` where no entry is there.
    pub fn read_comment(&self, address: Address) -> (r: Result<Option<Comment>, StoreError>)
        requires
            self@.basic_wf(),
        ensures
            !self@.has(address) ==> r == Ok::<Option<Comment>, StoreError>(None),
            self@.has(address) && self@.entry(address) is Comment ==> (r matches Ok(Some(c))
                && EntryView::Comment(c@) == self@.entry(address)),
            self@.has(address) && !(self@.entry(address) is Comment) ==> r == Err::<Option<Comment>, StoreError>(
                StoreError::WrongKind,
            ),
    {
        match self.get(address) {
            None => Ok(None),
            Some(Entry::Comment(c)) => Ok(Some(c.duplicate())),
            Some(_) => Err(StoreError::WrongKind),
        }
    }

    /// Replaces the comment at `prior` by a new comment of `caller`; only
    /// its author may do so.
    pub fn update_comment(&mut self, caller: Address, prior: Address, content: String, utc_unix_time: u64) -> (r: Result<Address, StoreError>)
        requires
            old(self)@.wf(),
        ensures
            final(self)@.wf(),
            updated(
                old(self)@,
                final(self)@,
                caller,
                prior,
                EntryView::Comment(CommentView { content: content@, key_hash: caller, timestamp: utc_unix_time }),
                r,
            ),
            old(self)@.has(prior) && old(self)@.entry(prior) is Comment && old(self)@.entry(prior)->Comment_0.key_hash
                != caller ==> r == Err::<Address, StoreError>(StoreError::Rejected(Rejection::NotYours)),
            old(self)@.has(prior) && old(self)@.entry(prior) is Comment && old(self)@.entry(prior)->Comment_0.key_hash
                == caller && old(self)@.entry(prior) != EntryView::Comment(
                CommentView { content: content@, key_hash: caller, timestamp: utc_unix_time },
            ) && old(self)@.entries.len() + 1 < u64::MAX ==> r is Ok,
    {
        assert(seq![caller][0] == caller);
        let comment = Comment { content, key_hash: caller, timestamp: utc_unix_time };
        self.update(caller, prior, Entry::Comment(comment))
    }

    /// Removes the links between `c` and `x` as comment and parent.
    fn unlink_parent(&mut self, caller: Address, c: Address, x: Address)
        requires
            old(self)@.wf(),
        ensures
            final(self)@.wf(),
            final(self)@ == (StoreView { links: final(self)@.links, ..old(self)@ }),
            unlinked_from(final(self)@, c, x),
            forall|l: Link| #[trigger] final(self)@.links.contains(l) <==> old(self)@.links.contains(l) && !joins(c, x, l),
    {
        let _ = self.remove_link(caller, Link { base: x, target: c, kind: LinkKind::CommentOnPost });
        let _ = self.remove_link(caller, Link { base: x, target: c, kind: LinkKind::CommentOnComment });
        let _ = self.remove_link(caller, Link { base: c, target: x, kind: LinkKind::ChildOfPost });
        let _ = self.remove_link(caller, Link { base: c, target: x, kind: LinkKind::ChildOfComment });
    }

    /// Deletes comment `c` after removing the links, both ways, between it
    /// and each of its parents; only its author may do so.
    pub fn delete_comment(&mut self, caller: Address, c: Address) -> (r: Result<(), StoreError>)
        requires
            old(self)@.wf(),
        ensures
            final(self)@.wf(),
            comment_deleted(old(self)@, final(self)@, caller, c, r),
            old(self)@.has(c) && old(self)@.entry(c) is Comment && old(self)@.entry(c)->Comment_0.key_hash != caller
                ==> r == Err::<(), StoreError>(StoreError::Rejected(Rejection::NotYours)) && final(self)@ == old(self)@,
            old(self)@.has(c) && old(self)@.entry(c) is Comment && old(self)@.entry(c)->Comment_0.key_hash == caller
                ==> r is Ok,
    {
        assert(seq![caller][0] == caller);
        let ghost s0 = self@;
        match self.check_delete(caller, c) {
            Ok(()) => {},
            Err(e) => {
                return Err(e);
            },
        }
        let mut parents = self.get_links(c, LinkKind::ChildOfPost);
        let mut more = self.get_links(c, LinkKind::ChildOfComment);
        let ghost p0 = parents@;
        let ghost m0 = more@;
        parents.append(&mut more);
        assert(parents@ == p0 + m0);
        let mut i: usize = 0;
        while i < parents.len()
            invariant
                i <= parents.len(),
                self@.wf(),
                self@ == (StoreView { links: self@.links, ..s0 }),
                forall|x: Address| parents@.contains(x) <==> is_parent(s0, c, x),
                forall|j: int| 0 <= j < i ==> unlinked_from(self@, c, #[trigger] parents@[j]),
                forall|l: Link| #[trigger] self@.links.contains(l) <==> s0.links.contains(l) && !(exists|j: int|
                    0 <= j < i && joins(c, #[trigger] parents@[j], l)),
            decreases parents.len() - i,
        {
            self.unlink_parent(caller, c, parents[i]);
            i = i + 1;
        }
        let ghost s2 = self@;
        let r = self.delete(caller, c);
        proof {
            assert forall|x: Address| is_parent(s0, c, x) implies unlinked_from(self@, c, x) by {
                assert(parents@.contains(x));
                let j = choose|j: int| 0 <= j < parents@.len() && parents@[j] == x;
                assert(unlinked_from(s2, c, parents@[j]));
            }
            assert forall|l: Link| #[trigger] self@.links.contains(l) <==> s0.links.contains(l) && !parent_link(s0, c, l) by {
                if parent_link(s0, c, l) {
                    let x = choose|x: Address| is_parent(s0, c, x) && #[trigger] joins(c, x, l);
                    assert(parents@.contains(x));
                    let j = choose|j: int| 0 <= j < parents@.len() && parents@[j] == x;
                    assert(joins(c, parents@[j], l));
                }
                if exists|j: int| 0 <= j < parents@.len() && joins(c, #[trigger] parents@[j], l) {
                    let j = choose|j: int| 0 <= j < parents@.len() && joins(c, #[trigger] parents@[j], l);
                    assert(parents@.contains(parents@[j]));
                    assert(is_parent(s0, c, parents@[j]));
                }
            }
        }
        r
    }

    /// The comments on the post or comment at `address`.
    pub fn comments_of(&self, address: Address) -> (r: Vec<Address>)
        ensures
            forall|c: Address| r@.contains(c) <==> comment_listed(self@, address, c),
    {
        let mut r = self.get_links(address, LinkKind::CommentOnPost);
        let mut more = self.get_links(address, LinkKind::CommentOnComment);
        let ghost r0 = r@;
        let ghost m0 = more@;
        r.append(&mut more);
        assert(r@ == r0 + m0);
        r
    }
}

} // verus!
