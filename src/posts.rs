use vstd::prelude::*;
use crate::anchors::only_anchors_added;
use crate::search::{hits, lists_results, placement_set, search_placements, Search, SearchResult};
use crate::store::{
    anchor_entry, lemma_status_trans, deleted, lemma_grows_trans, updated, Link, LinkKind, Record,
    Store, StoreError, StoreView,
};
use crate::text::{decimal_text, is_json_uint_text, lemma_tag_text_round_trip, parse_tag, tag_text};
use crate::types::{Address, Entry, EntryView, Post, PostView, Tag};
use crate::validation::Rejection;

verus! {

broadcast use vstd::seq_lib::lemma_seq_contains_after_push;

/// The anchor that files content under tag `t`.
pub open spec fn tag_anchor(t: Tag) -> EntryView {
    anchor_entry("tag"@, decimal_text(t))
}

/// In `s`, `p` and the anchor of tag `t` are joined both ways by links of
/// `kind`.
pub open spec fn filed_under(s: StoreView, p: Address, t: Tag, kind: LinkKind) -> bool {
    exists|x: Address|
        s.has(x) && s.entry(x) == tag_anchor(t) && s.linked(p, x, kind) && s.linked(x, p, kind)
}

/// `l` joins `p` and the anchor of one of the first `n` of `tags`, either
/// way, by `kind`.
pub open spec fn tag_link_for(s: StoreView, p: Address, kind: LinkKind, tags: Seq<Tag>, n: int, l: Link) -> bool {
    exists|k: int, x: Address|
        0 <= k < n && k < tags.len() && s.has(x) && s.entry(x) == tag_anchor(tags[k]) && (l == Link {
            base: p,
            target: x,
            kind,
        } || l == Link { base: x, target: p, kind })
}

/// What `s1` holds beyond `s0` is filing `p` by `kind` under the first `n`
/// of `tags`, anchor-index work, and the one link and write of `extra`.
pub open spec fn filing_growth(
    s0: StoreView,
    s1: StoreView,
    p: Address,
    kind: LinkKind,
    tags: Seq<Tag>,
    n: int,
    extra: Option<(Link, Record)>,
) -> bool {
    &&& forall|l: Link|
        #[trigger] s1.links.contains(l) ==> s0.links.contains(l) || l.kind == LinkKind::AnchorChild || (extra
            matches Some(e) && l == e.0) || tag_link_for(s1, p, kind, tags, n, l)
    &&& forall|r: Record|
        #[trigger] s1.history.contains(r) ==> s0.history.contains(r) || (extra matches Some(e) && r == e.1) || (
        s1.has(r.address) && s1.entry(r.address) is Anchor)
}

/// `s1` holds post `p` of content `pv`, written by `caller` and linked from
/// them, filed by original tag under the first `filed` of `tags`; beyond
/// `s0` it holds only that post, anchors, the author link, and original tag
/// links of `p` for the first `linked` of `tags`.
pub open spec fn post_made(
    s0: StoreView,
    s1: StoreView,
    caller: Address,
    p: Address,
    pv: EntryView,
    tags: Seq<Tag>,
    filed: int,
    linked: int,
) -> bool {
    &&& s1.has(p)
    &&& s1.entry(p) == pv
    &&& s1.linked(caller, p, LinkKind::Author)
    &&& forall|k: int| 0 <= k < filed ==> filed_under(s1, p, #[trigger] tags[k], LinkKind::OriginalTag)
    &&& filing_growth(
        s0,
        s1,
        p,
        LinkKind::OriginalTag,
        tags,
        linked,
        Some((Link { base: caller, target: p, kind: LinkKind::Author }, Record { author: caller, address: p })),
    )
    &&& forall|i: int| s0.entries.len() <= i < s1.entries.len() ==> s1.entries[i] is Anchor || i == p.0
}

/// A post made, its filing stopped at the tag at `n`: filed under the tags
/// before it, links made at most for that tag too.
pub open spec fn post_made_until(s0: StoreView, s1: StoreView, caller: Address, p: Address, pv: EntryView, tags: Seq<Tag>, n: int) -> bool {
    post_made(s0, s1, caller, p, pv, tags, n, n + 1)
}

/// `s1` has `post` crossposted under the first `filed` of `tags`; beyond
/// `s0` it holds only anchors, anchor-index links and crosspost links of
/// `post` for the first `linked` of `tags`.
pub open spec fn crossposted(s0: StoreView, s1: StoreView, post: Address, tags: Seq<Tag>, filed: int, linked: int) -> bool {
    &&& forall|k: int| 0 <= k < filed ==> filed_under(s1, post, #[trigger] tags[k], LinkKind::CrosspostTag)
    &&& filing_growth(s0, s1, post, LinkKind::CrosspostTag, tags, linked, None)
    &&& forall|i: int| s0.entries.len() <= i < s1.entries.len() ==> s1.entries[i] is Anchor
}

/// Crossposting stopped at the tag at `n`.
pub open spec fn crossposted_until(s0: StoreView, s1: StoreView, post: Address, tags: Seq<Tag>, n: int) -> bool {
    crossposted(s0, s1, post, tags, n, n + 1)
}

/// Filings stay while the store grows.
proof fn lemma_filed_kept(s: StoreView, s1: StoreView, p: Address, tags: Seq<Tag>, n: int, kind: LinkKind)
    requires
        forall|k: int| 0 <= k < n ==> filed_under(s, p, #[trigger] tags[k], kind),
        s.grows_to(s1),
    ensures
        forall|k: int| 0 <= k < n ==> filed_under(s1, p, #[trigger] tags[k], kind),
{
    assert forall|k: int| 0 <= k < n implies filed_under(s1, p, #[trigger] tags[k], kind) by {
        assert(filed_under(s, p, tags[k], kind));
        let y = choose|y: Address| s.has(y) && s.entry(y) == tag_anchor(tags[k]) && s.linked(p, y, kind) && s.linked(y, p, kind);
        assert(s1.entries[y.0 as int] == s.entries[y.0 as int]);
        assert(s1.linked(p, y, kind) && s1.linked(y, p, kind));
        assert(s1.has(y) && s1.entry(y) == tag_anchor(tags[k]));
    }
}

/// Filing grows by anchor-index work alone, or by the two links of one more
/// tag.
proof fn lemma_filing_step(
    s0: StoreView,
    s2: StoreView,
    s3: StoreView,
    s4: StoreView,
    p: Address,
    kind: LinkKind,
    tags: Seq<Tag>,
    i: int,
    x: Address,
    extra: Option<(Link, Record)>,
)
    requires
        filing_growth(s0, s2, p, kind, tags, i, extra),
        0 <= i < tags.len(),
        only_anchors_added(s2, s3),
        s2.grows_to(s3),
        s3.grows_to(s4),
        s4.entries == s3.entries,
        s4.history == s3.history,
        s4.links == s3.links || (s3.has(x) && s3.entry(x) == tag_anchor(tags[i]) && forall|l: Link|
            #[trigger] s4.links.contains(l) ==> s3.links.contains(l) || l == (Link { base: p, target: x, kind })
                || l == (Link { base: x, target: p, kind })),
    ensures
        filing_growth(s0, s4, p, kind, tags, i + 1, extra),
{
    assert forall|l: Link| #[trigger] s4.links.contains(l) implies s0.links.contains(l) || l.kind == LinkKind::AnchorChild
        || (extra matches Some(e) && l == e.0) || tag_link_for(s4, p, kind, tags, i + 1, l) by {
        if s2.links.contains(l) && !s0.links.contains(l) && l.kind != LinkKind::AnchorChild && !(extra matches Some(e)
            && l == e.0) {
            assert(tag_link_for(s2, p, kind, tags, i, l));
            let (k, y) = choose|k: int, y: Address|
                0 <= k < i && k < tags.len() && s2.has(y) && s2.entry(y) == tag_anchor(tags[k]) && (l == Link {
                    base: p,
                    target: y,
                    kind,
                } || l == Link { base: y, target: p, kind });
            assert(s3.entries[y.0 as int] == s2.entries[y.0 as int]);
            assert(s4.has(y) && s4.entry(y) == tag_anchor(tags[k]));
        }
        if !s3.links.contains(l) {
            assert(s4.has(x) && s4.entry(x) == tag_anchor(tags[i]));
        }
    }
    assert forall|r: Record| #[trigger] s4.history.contains(r) implies s0.history.contains(r) || (extra matches Some(e)
        && r == e.1) || (s4.has(r.address) && s4.entry(r.address) is Anchor) by {
        if s2.history.contains(r) && !s0.history.contains(r) && !(extra matches Some(e) && r == e.1) {
            assert(s3.entries[r.address.0 as int] == s2.entries[r.address.0 as int]);
        }
    }
}

/// The tags of a post, split by how it was placed under them.
pub struct PostTags {
    pub original_tags: Vec<Tag>,
    pub crosspost_tags: Vec<Tag>,
}

/// `t` is read from the text of an anchor that `a` links to by `kind`.
pub open spec fn tag_of_link(s: StoreView, a: Address, kind: LinkKind, t: Tag) -> bool {
    exists|x: Address|
        s.linked(a, x, kind) && s.has(x) && s.entry(x) is Anchor && is_json_uint_text(
            s.entry(x)->Anchor_0.anchor_text,
            t,
        )
}

/// Tag `t` files item `a` in `s`: the anchor of `t` links to `a` as an
/// original tag, or as a crosspost unless crossposts are excluded.
pub open spec fn filed(s: StoreView, t: Tag, a: Address, exclude_crossposts: bool) -> bool {
    exists|x: Address|
        s.has(x) && s.entry(x) == tag_anchor(t) && (s.linked(x, a, LinkKind::OriginalTag) || (
        !exclude_crossposts && s.linked(x, a, LinkKind::CrosspostTag)))
}

pub open spec fn filings(s: StoreView, exclude_crossposts: bool) -> Set<(Tag, Address)> {
    Set::new(|p: (Tag, Address)| filed(s, p.0, p.1, exclude_crossposts))
}

impl Store {
    /// Links `a` to `b` and `b` to `a`, both by `kind`.
    fn link_both(&mut self, caller: Address, a: Address, b: Address, kind: LinkKind) -> (r: Result<(), StoreError>)
        requires
            old(self)@.wf(),
        ensures
            final(self)@.wf(),
            old(self)@.grows_to(final(self)@),
            old(self)@.keeps_status_of(final(self)@),
            final(self)@.entries == old(self)@.entries,
            final(self)@.status == old(self)@.status,
            r is Ok ==> final(self)@.linked(a, b, kind) && final(self)@.linked(b, a, kind),
            old(self)@.link_verdict(caller, Link { base: a, target: b, kind }) is Ok
                && old(self)@.link_verdict(caller, Link { base: b, target: a, kind }) is Ok
                && (kind == LinkKind::OriginalTag || kind == LinkKind::CrosspostTag) ==> r is Ok,
            r matches Err(e) ==> e is Rejected,
            final(self)@.history == old(self)@.history,
            forall|l: Link|
                #[trigger] final(self)@.links.contains(l) ==> old(self)@.links.contains(l) || l == (Link { base: a, target: b, kind })
                    || l == (Link { base: b, target: a, kind }),
    {
        let ghost s0 = self@;
        match self.add_link(caller, Link { base: a, target: b, kind }) {
            Ok(()) => {},
            Err(e) => {
                return Err(e);
            },
        }
        let ghost s1 = self@;
        assert(s1.link_verdict(caller, Link { base: b, target: a, kind }) == s0.link_verdict(
            caller,
            Link { base: b, target: a, kind },
        )) by {
            if kind == LinkKind::OriginalTag || kind == LinkKind::CrosspostTag {
                assert(s1.entries == s0.entries && s1.history == s0.history);
            }
        }
        let r = self.add_link(caller, Link { base: b, target: a, kind });
        proof {
            lemma_grows_trans(s0, s1, self@);
            lemma_status_trans(s0, s1, self@);
        }
        r
    }

    /// Creates `post`, links its author to it, and files it under each of
    /// `tags` (original tag links both ways), creating tag anchors as
    /// needed. Work done before a failure stays.
    pub fn create_post_raw(&mut self, caller: Address, post: Post, tags: &Vec<Tag>) -> (r: Result<Address, StoreError>)
        requires
            old(self)@.wf(),
        ensures
            final(self)@.wf(),
            old(self)@.grows_to(final(self)@),
            old(self)@.keeps_status_of(final(self)@),
            r matches Ok(p) ==> {
                &&& final(self)@.has(p)
                &&& final(self)@.entry(p) == EntryView::Post(post@)
                &&& final(self)@.linked(caller, p, LinkKind::Author)
                &&& forall|k: int| 0 <= k < tags@.len() ==> filed_under(final(self)@, p, #[trigger] tags@[k], LinkKind::OriginalTag)
                &&& post_made(old(self)@, final(self)@, caller, p, EntryView::Post(post@), tags@, tags@.len() as int, tags@.len() as int)
            },
            r is Err ==> final(self)@ == old(self)@ || exists|p: Address, n: int|
                0 <= n < tags@.len() && #[trigger] post_made_until(old(self)@, final(self)@, caller, p, EntryView::Post(post@), tags@, n),
            post.key_hash != caller ==> r == Err::<Address, StoreError>(StoreError::Rejected(Rejection::NotYours))
                && final(self)@ == old(self)@,
            post.key_hash == caller ==> (r is Err ==> r == Err::<Address, StoreError>(StoreError::Full)),
            post.key_hash == caller && old(self)@.entries.len() + 1 + 3 * tags@.len() < u64::MAX ==> r is Ok,
    {
        let ghost s0 = self@;
        let ghost pv = EntryView::Post(post@);
        assert(seq![caller][0] == caller);
        assert(crate::validation::signed_by(seq![caller], post.key_hash) == (post.key_hash == caller));
        let p = match self.commit(caller, Entry::Post(post)) {
            Ok(p) => p,
            Err(e) => {
                return Err(e);
            },
        };
        assert(self@.wrote(caller, p)) by {
            assert(self@.history[self@.history.len() - 1] == crate::store::Record { author: caller, address: p });
        }
        let ghost s1 = self@;
        let ghost extra = Some(
            (Link { base: caller, target: p, kind: LinkKind::Author }, Record { author: caller, address: p }),
        );
        assert(s1.link_verdict(caller, Link { base: caller, target: p, kind: LinkKind::Author }) is Ok);
        match self.add_link(caller, Link { base: caller, target: p, kind: LinkKind::Author }) {
            Ok(()) => {},
            Err(e) => {
                return Err(e);
            },
        }
        proof {
            lemma_grows_trans(s0, s1, self@);
            lemma_status_trans(s0, s1, self@);
            assert(filing_growth(s0, self@, p, LinkKind::OriginalTag, tags@, 0, extra));
        }
        let mut i: usize = 0;
        while i < tags.len()
            invariant
                i <= tags.len(),
                old(self)@ == s0,
                pv == EntryView::Post(post@),
                self@.wf(),
                s0.grows_to(self@),
                s0.keeps_status_of(self@),
                post.key_hash == caller,
                self@.has(p),
                self@.entry(p) == pv,
                self@.wrote(caller, p),
                self@.linked(caller, p, LinkKind::Author),
                self@.entries.len() <= s0.entries.len() + 1 + 3 * i,
                forall|k: int| 0 <= k < i ==> filed_under(self@, p, #[trigger] tags@[k], LinkKind::OriginalTag),
                extra == Some(
                    (Link { base: caller, target: p, kind: LinkKind::Author }, Record { author: caller, address: p }),
                ),
                filing_growth(s0, self@, p, LinkKind::OriginalTag, tags@, i as int, extra),
                forall|j: int| s0.entries.len() <= j < self@.entries.len() ==> self@.entries[j] is Anchor || j == p.0,
            decreases tags.len() - i,
        {
            let t = tags[i];
            let text = tag_text(t);
            let ghost s2 = self@;
            let x = match self.anchor(caller, "tag", text.as_str()) {
                Ok(x) => x,
                Err(e) => {
                    proof {
                        lemma_grows_trans(s0, s2, self@);
                        lemma_status_trans(s0, s2, self@);
                        lemma_filing_step(s0, s2, self@, self@, p, LinkKind::OriginalTag, tags@, i as int, p, extra);
                        lemma_filed_kept(s2, self@, p, tags@, i as int, LinkKind::OriginalTag);
                        assert(self@.entries[p.0 as int] == s2.entries[p.0 as int]);
                        assert(post_made_until(s0, self@, caller, p, pv, tags@, i as int));
                    }
                    return Err(e);
                },
            };
            let ghost s3 = self@;
            proof {
                lemma_grows_trans(s0, s2, s3);
                lemma_status_trans(s0, s2, s3);
                lemma_tag_text_round_trip(t);
                assert(s3.entry(x) == tag_anchor(t));
                assert(is_json_uint_text(s3.entry(x)->Anchor_0.anchor_text, t));
                assert(s3.entries[p.0 as int] == s2.entries[p.0 as int]);
                assert(s3.wrote(caller, p));
                assert(s3.entry(p) == pv);
                let l1 = Link { base: p, target: x, kind: LinkKind::OriginalTag };
                let l2 = Link { base: x, target: p, kind: LinkKind::OriginalTag };
                assert(s3.tag_link_post(l1) == p);
                assert(s3.tag_link_anchor(l1) == x);
                assert(s3.tag_link_post(l2) == p && s3.tag_link_anchor(l2) == x);
                assert(s3.link_verdict(caller, l1) is Ok);
                assert(s3.link_verdict(caller, l2) is Ok);
            }
            match self.link_both(caller, p, x, LinkKind::OriginalTag) {
                Ok(()) => {},
                Err(e) => {
                    proof {
                        lemma_grows_trans(s0, s3, self@);
                        lemma_status_trans(s0, s3, self@);
                    }
                    return Err(e);
                },
            }
            proof {
                lemma_grows_trans(s0, s3, self@);
                lemma_status_trans(s0, s3, self@);
                lemma_filing_step(s0, s2, s3, self@, p, LinkKind::OriginalTag, tags@, i as int, x, extra);
                assert forall|k: int| 0 <= k < i + 1 implies filed_under(self@, p, #[trigger] tags@[k], LinkKind::OriginalTag) by {
                    if k < i {
                        assert(filed_under(s2, p, tags@[k], LinkKind::OriginalTag));
                        let y = choose|y: Address|
                            s2.has(y) && s2.entry(y) == tag_anchor(tags@[k]) && s2.linked(p, y, LinkKind::OriginalTag)
                                && s2.linked(y, p, LinkKind::OriginalTag);
                        assert(self@.entries[y.0 as int] == s2.entries[y.0 as int]);
                        assert(self@.linked(p, y, LinkKind::OriginalTag));
                        assert(self@.linked(y, p, LinkKind::OriginalTag));
                        assert(self@.has(y) && self@.entry(y) == tag_anchor(tags@[k]));
                    } else {
                        assert(tags@[k] == t);
                        assert(self@.has(x));
                        assert(self@.entry(x) == tag_anchor(t));
                        assert(self@.linked(p, x, LinkKind::OriginalTag) && self@.linked(x, p, LinkKind::OriginalTag));
                    }
                }
            }
            i = i + 1;
        }
        assert(post_made(s0, self@, caller, p, pv, tags@, tags@.len() as int, tags@.len() as int));
        Ok(p)
    }

    /// Creates a post by `caller` with the given text and creation time,
    /// filed under `tags`.
    pub fn create_post(
        &mut self,
        caller: Address,
        title: String,
        content: String,
        utc_unix_time: u64,
        tags: &Vec<Tag>,
    ) -> (r: Result<Address, StoreError>)
        requires
            old(self)@.wf(),
        ensures
            final(self)@.wf(),
            old(self)@.grows_to(final(self)@),
            old(self)@.keeps_status_of(final(self)@),
            r matches Ok(p) ==> {
                &&& final(self)@.has(p)
                &&& final(self)@.entry(p) == EntryView::Post(
                    PostView { title: title@, content: content@, key_hash: caller, timestamp: utc_unix_time },
                )
                &&& final(self)@.linked(caller, p, LinkKind::Author)
                &&& forall|k: int| 0 <= k < tags@.len() ==> filed_under(final(self)@, p, #[trigger] tags@[k], LinkKind::OriginalTag)
                &&& post_made(
                    old(self)@,
                    final(self)@,
                    caller,
                    p,
                    EntryView::Post(PostView { title: title@, content: content@, key_hash: caller, timestamp: utc_unix_time }),
                    tags@,
                    tags@.len() as int,
                    tags@.len() as int,
                )
            },
            r is Err ==> r == Err::<Address, StoreError>(StoreError::Full),
            r is Err ==> final(self)@ == old(self)@ || exists|p: Address, n: int|
                0 <= n < tags@.len() && #[trigger] post_made_until(
                    old(self)@,
                    final(self)@,
                    caller,
                    p,
                    EntryView::Post(PostView { title: title@, content: content@, key_hash: caller, timestamp: utc_unix_time }),
                    tags@,
                    n,
                ),
            old(self)@.entries.len() + 1 + 3 * tags@.len() < u64::MAX ==> r is Ok,
    {
        let post = Post { title, content, key_hash: caller, timestamp: utc_unix_time };
        self.create_post_raw(caller, post, tags)
    }

    /// The post at `address`: `None` where no entry is there.
    pub fn read_post(&self, address: Address) -> (r: Result<Option<Post>, StoreError>)
        requires
            self@.basic_wf(),
        ensures
            !self@.has(address) ==> r == Ok::<Option<Post>, StoreError>(None),
            self@.has(address) && self@.entry(address) is Post ==> (r matches Ok(Some(p))
                && EntryView::Post(p@) == self@.entry(address)),
            self@.has(address) && !(self@.entry(address) is Post) ==> r == Err::<Option<Post>, StoreError>(StoreError::WrongKind),
    {
        match self.get(address) {
            None => Ok(None),
            Some(Entry::Post(p)) => Ok(Some(p.duplicate())),
            Some(_) => Err(StoreError::WrongKind),
        }
    }

    /// Replaces the post at `prior` by a new post of `caller`; only its
    /// author may do so.
    pub fn update_post(
        &mut self,
        caller: Address,
        prior: Address,
        title: String,
        content: String,
        utc_unix_time: u64,
    ) -> (r: Result<Address, StoreError>)
        requires
            old(self)@.wf(),
        ensures
            final(self)@.wf(),
            updated(
                old(self)@,
                final(self)@,
                caller,
                prior,
                EntryView::Post(
                    PostView { title: title@, content: content@, key_hash: caller, timestamp: utc_unix_time },
                ),
                r,
            ),
            old(self)@.has(prior) && old(self)@.entry(prior) is Post && old(self)@.entry(prior)->Post_0.key_hash
                != caller ==> r == Err::<Address, StoreError>(StoreError::Rejected(Rejection::NotYours)),
            old(self)@.has(prior) && old(self)@.entry(prior) is Post && old(self)@.entry(prior)->Post_0.key_hash
                == caller && old(self)@.entry(prior) != EntryView::Post(
                PostView { title: title@, content: content@, key_hash: caller, timestamp: utc_unix_time },
            ) && old(self)@.entries.len() + 1 < u64::MAX ==> r is Ok,
    {
        assert(seq![caller][0] == caller);
        let post = Post { title, content, key_hash: caller, timestamp: utc_unix_time };
        self.update(caller, prior, Entry::Post(post))
    }

    /// Marks the post at `address` deleted; only its author may do so.
    pub fn delete_post(&mut self, caller: Address, address: Address) -> (r: Result<(), StoreError>)
        requires
            old(self)@.wf(),
        ensures
            final(self)@.wf(),
            deleted(old(self)@, final(self)@, caller, address, r),
            old(self)@.has(address) && old(self)@.entry(address) is Post ==> (r is Ok <==> old(self)@.entry(
                address,
            )->Post_0.key_hash == caller),
    {
        assert(seq![caller][0] == caller);
        self.delete(caller, address)
    }

    /// Files the post at `post` under each of `tags` as a crosspost, in
    /// both directions, without writing the post again.
    pub fn crosspost(&mut self, caller: Address, post: Address, tags: &Vec<Tag>) -> (r: Result<(), StoreError>)
        requires
            old(self)@.wf(),
        ensures
            final(self)@.wf(),
            old(self)@.grows_to(final(self)@),
            old(self)@.keeps_status_of(final(self)@),
            r is Ok ==> forall|k: int| 0 <= k < tags@.len() ==> filed_under(final(self)@, post, #[trigger] tags@[k], LinkKind::CrosspostTag),
            r is Ok ==> crossposted(old(self)@, final(self)@, post, tags@, tags@.len() as int, tags@.len() as int),
            r is Err ==> exists|n: int| 0 <= n < tags@.len() && #[trigger] crossposted_until(old(self)@, final(self)@, post, tags@, n),
            old(self)@.has(post) && !(old(self)@.entry(post) is Anchor) ==> (r is Err ==> r == Err::<(), StoreError>(StoreError::Full)),
            old(self)@.has(post) && !(old(self)@.entry(post) is Anchor) && old(self)@.entries.len() + 3 * tags@.len() < u64::MAX ==> r is Ok,
    {
        let ghost s0 = self@;
        let mut i: usize = 0;
        while i < tags.len()
            invariant
                i <= tags.len(),
                old(self)@ == s0,
                self@.wf(),
                s0.grows_to(self@),
                s0.keeps_status_of(self@),
                s0.has(post) && !(s0.entry(post) is Anchor) ==> self@.has(post) && !(self@.entry(post) is Anchor),
                self@.entries.len() <= s0.entries.len() + 3 * i,
                forall|k: int| 0 <= k < i ==> filed_under(self@, post, #[trigger] tags@[k], LinkKind::CrosspostTag),
                filing_growth(s0, self@, post, LinkKind::CrosspostTag, tags@, i as int, None),
                forall|j: int| s0.entries.len() <= j < self@.entries.len() ==> self@.entries[j] is Anchor,
            decreases tags.len() - i,
        {
            let t = tags[i];
            let text = tag_text(t);
            let ghost s2 = self@;
            let x = match self.anchor(caller, "tag", text.as_str()) {
                Ok(x) => x,
                Err(e) => {
                    proof {
                        lemma_grows_trans(s0, s2, self@);
                        lemma_status_trans(s0, s2, self@);
                        lemma_filing_step(s0, s2, self@, self@, post, LinkKind::CrosspostTag, tags@, i as int, post, None);
                        lemma_filed_kept(s2, self@, post, tags@, i as int, LinkKind::CrosspostTag);
                        assert(crossposted_until(s0, self@, post, tags@, i as int));
                    }
                    return Err(e);
                },
            };
            let ghost s3 = self@;
            proof {
                lemma_grows_trans(s0, s2, s3);
                lemma_status_trans(s0, s2, s3);
                lemma_tag_text_round_trip(t);
                assert(s3.entry(x) == tag_anchor(t));
                assert(is_json_uint_text(s3.entry(x)->Anchor_0.anchor_text, t));
                if s2.has(post) {
                    assert(s3.entries[post.0 as int] == s2.entries[post.0 as int]);
                }
                let l1 = Link { base: post, target: x, kind: LinkKind::CrosspostTag };
                let l2 = Link { base: x, target: post, kind: LinkKind::CrosspostTag };
                if !(s3.has(post) && s3.entry(post) is Anchor) {
                    assert(s3.tag_link_post(l1) == post);
                    assert(s3.tag_link_anchor(l1) == x);
                    assert(s3.link_verdict(caller, l1) is Ok);
                }
                assert(s3.tag_link_post(l2) == post);
                assert(s3.tag_link_anchor(l2) == x);
                assert(s3.link_verdict(caller, l2) is Ok);
            }
            match self.link_both(caller, x, post, LinkKind::CrosspostTag) {
                Ok(()) => {},
                Err(e) => {
                    proof {
                        lemma_grows_trans(s0, s3, self@);
                        lemma_status_trans(s0, s3, self@);
                        lemma_filing_step(s0, s2, s3, self@, post, LinkKind::CrosspostTag, tags@, i as int, x, None);
                        lemma_filed_kept(s2, self@, post, tags@, i as int, LinkKind::CrosspostTag);
                        assert(crossposted_until(s0, self@, post, tags@, i as int));
                    }
                    return Err(e);
                },
            }
            proof {
                lemma_grows_trans(s0, s3, self@);
                lemma_status_trans(s0, s3, self@);
                lemma_filing_step(s0, s2, s3, self@, post, LinkKind::CrosspostTag, tags@, i as int, x, None);
                assert forall|k: int| 0 <= k < i + 1 implies filed_under(self@, post, #[trigger] tags@[k], LinkKind::CrosspostTag) by {
                    if k < i {
                        assert(filed_under(s2, post, tags@[k], LinkKind::CrosspostTag));
                        let y = choose|y: Address|
                            s2.has(y) && s2.entry(y) == tag_anchor(tags@[k]) && s2.linked(post, y, LinkKind::CrosspostTag)
                                && s2.linked(y, post, LinkKind::CrosspostTag);
                        assert(self@.entries[y.0 as int] == s2.entries[y.0 as int]);
                        assert(self@.linked(post, y, LinkKind::CrosspostTag));
                        assert(self@.linked(y, post, LinkKind::CrosspostTag));
                        assert(self@.has(y) && self@.entry(y) == tag_anchor(tags@[k]));
                    } else {
                        assert(tags@[k] == t);
                        assert(self@.has(x));
                        assert(self@.entry(x) == tag_anchor(t));
                        assert(self@.linked(post, x, LinkKind::CrosspostTag) && self@.linked(x, post, LinkKind::CrosspostTag));
                    }
                }
            }
            i = i + 1;
        }
        assert(crossposted(s0, self@, post, tags@, tags@.len() as int, tags@.len() as int));
        Ok(())
    }

    /// The tags read from the anchors that `address` links to by `kind`;
    /// an anchor whose text is not a tag is skipped.
    fn tags_linked(&self, address: Address, kind: LinkKind) -> (r: Vec<Tag>)
        requires
            self@.basic_wf(),
        ensures
            forall|t: Tag| r@.contains(t) <==> tag_of_link(self@, address, kind, t),
    {
        let targets = self.get_links(address, kind);
        let mut r: Vec<Tag> = Vec::new();
        let mut i: usize = 0;
        while i < targets.len()
            invariant
                i <= targets.len(),
                self@.basic_wf(),
                forall|a: Address| targets@.contains(a) <==> self@.linked(address, a, kind),
                forall|t: Tag| r@.contains(t) <==> exists|j: int| 0 <= j < i && self@.has(#[trigger] targets@[j])
                    && self@.entry(targets@[j]) is Anchor
                    && is_json_uint_text(self@.entry(targets@[j])->Anchor_0.anchor_text, t),
            decreases targets.len() - i,
        {
            let x = targets[i];
            let ghost r0 = r@;
            match self.get(x) {
                Some(Entry::Anchor(an)) => {
                    match parse_tag(an.anchor_text.as_str()) {
                        Some(t) => {
                            r.push(t);
                        },
                        None => {},
                    }
                },
                _ => {},
            }
            assert forall|t: Tag| r@.contains(t) <==> exists|j: int| 0 <= j < i + 1 && self@.has(#[trigger] targets@[j])
                && self@.entry(targets@[j]) is Anchor
                && is_json_uint_text(self@.entry(targets@[j])->Anchor_0.anchor_text, t) by {
                if r0.contains(t) {
                    let j = choose|j: int| 0 <= j < i && self@.has(#[trigger] targets@[j])
                        && self@.entry(targets@[j]) is Anchor
                        && is_json_uint_text(self@.entry(targets@[j])->Anchor_0.anchor_text, t);
                }
            }
            i = i + 1;
        }
        assert forall|t: Tag| r@.contains(t) <== tag_of_link(self@, address, kind, t) by {
            if tag_of_link(self@, address, kind, t) {
                let x = choose|x: Address| self@.linked(address, x, kind) && self@.has(x) && self@.entry(x) is Anchor
                    && is_json_uint_text(self@.entry(x)->Anchor_0.anchor_text, t);
                assert(targets@.contains(x));
                let j = choose|j: int| 0 <= j < targets@.len() && targets@[j] == x;
            }
        }
        assert forall|t: Tag| r@.contains(t) ==> tag_of_link(self@, address, kind, t) by {
            if r@.contains(t) {
                let j = choose|j: int| 0 <= j < i && self@.has(#[trigger] targets@[j])
                    && self@.entry(targets@[j]) is Anchor
                    && is_json_uint_text(self@.entry(targets@[j])->Anchor_0.anchor_text, t);
                assert(targets@.contains(targets@[j]));
            }
        }
        r
    }

    /// The tags a post was filed under, originally and by crossposts.
    pub fn post_tags(&self, address: Address) -> (r: PostTags)
        requires
            self@.basic_wf(),
        ensures
            forall|t: Tag| r.original_tags@.contains(t) <==> tag_of_link(self@, address, LinkKind::OriginalTag, t),
            forall|t: Tag| r.crosspost_tags@.contains(t) <==> tag_of_link(self@, address, LinkKind::CrosspostTag, t),
    {
        PostTags {
            original_tags: self.tags_linked(address, LinkKind::OriginalTag),
            crosspost_tags: self.tags_linked(address, LinkKind::CrosspostTag),
        }
    }

    /// The posts that `author` is linked to as their author.
    pub fn user_posts(&self, author: Address) -> (r: Vec<Address>)
        ensures
            forall|a: Address| r@.contains(a) <==> self@.linked(author, a, LinkKind::Author),
    {
        self.get_links(author, LinkKind::Author)
    }

    /// Every (tag, item) filing: links of a tag anchor to an item as an
    /// original tag, or as a crosspost unless crossposts are excluded.
    fn filings_list(&self, exclude_crossposts: bool) -> (r: Vec<(Tag, Address)>)
        requires
            self@.basic_wf(),
        ensures
            forall|p: (Tag, Address)| r@.contains(p) <==> filed(self@, p.0, p.1, exclude_crossposts),
    {
        let links = self.links();
        let tag_type = "tag".to_owned();
        let mut r: Vec<(Tag, Address)> = Vec::new();
        let mut i: usize = 0;
        while i < links.len()
            invariant
                i <= links.len(),
                self@.basic_wf(),
                links@ == self@.links,
                tag_type@ == "tag"@,
                forall|p: (Tag, Address)| r@.contains(p) <==> exists|j: int|
                    0 <= j < i && self@.has((#[trigger] links@[j]).base) && self@.entry(links@[j].base) == tag_anchor(p.0)
                        && links@[j].target == p.1 && (links@[j].kind == LinkKind::OriginalTag || (!exclude_crossposts
                        && links@[j].kind == LinkKind::CrosspostTag)),
            decreases links.len() - i,
        {
            let l = links[i];
            let ghost r0 = r@;
            if l.kind == LinkKind::OriginalTag || (!exclude_crossposts && l.kind == LinkKind::CrosspostTag) {
                match self.get(l.base) {
                    Some(Entry::Anchor(an)) => {
                        if an.anchor_type == tag_type {
                            match parse_tag(an.anchor_text.as_str()) {
                                Some(t) => {
                                    let text = tag_text(t);
                                    if an.anchor_text == text {
                                        r.push((t, l.target));
                                    }
                                },
                                None => {},
                            }
                        }
                    },
                    _ => {},
                }
            }
            assert forall|p: (Tag, Address)| r@.contains(p) <==> exists|j: int|
                0 <= j < i + 1 && self@.has((#[trigger] links@[j]).base) && self@.entry(links@[j].base) == tag_anchor(p.0)
                    && links@[j].target == p.1 && (links@[j].kind == LinkKind::OriginalTag || (!exclude_crossposts
                    && links@[j].kind == LinkKind::CrosspostTag)) by {
                if r0.contains(p) {
                    let j = choose|j: int|
                        0 <= j < i && self@.has((#[trigger] links@[j]).base) && self@.entry(links@[j].base) == tag_anchor(p.0)
                            && links@[j].target == p.1 && (links@[j].kind == LinkKind::OriginalTag || (!exclude_crossposts
                            && links@[j].kind == LinkKind::CrosspostTag));
                }
                if self@.has(l.base) && self@.entry(l.base) == tag_anchor(p.0) && l.target == p.1 && (l.kind
                    == LinkKind::OriginalTag || (!exclude_crossposts && l.kind == LinkKind::CrosspostTag)) {
                    lemma_tag_text_round_trip(p.0);
                }
            }
            i = i + 1;
        }
        assert forall|p: (Tag, Address)| r@.contains(p) <==> filed(self@, p.0, p.1, exclude_crossposts) by {
            if filed(self@, p.0, p.1, exclude_crossposts) {
                let x = choose|x: Address|
                    self@.has(x) && self@.entry(x) == tag_anchor(p.0) && (self@.linked(x, p.1, LinkKind::OriginalTag) || (
                    !exclude_crossposts && self@.linked(x, p.1, LinkKind::CrosspostTag)));
                if self@.linked(x, p.1, LinkKind::OriginalTag) {
                    let j = choose|j: int| 0 <= j < links@.len() && links@[j] == Link { base: x, target: p.1, kind: LinkKind::OriginalTag };
                    assert(links@[j].base == x);
                } else {
                    let j = choose|j: int| 0 <= j < links@.len() && links@[j] == Link { base: x, target: p.1, kind: LinkKind::CrosspostTag };
                    assert(links@[j].base == x);
                }
            }
            if r@.contains(p) {
                let j = choose|j: int|
                    0 <= j < i && self@.has((#[trigger] links@[j]).base) && self@.entry(links@[j].base) == tag_anchor(p.0)
                        && links@[j].target == p.1 && (links@[j].kind == LinkKind::OriginalTag || (!exclude_crossposts
                        && links@[j].kind == LinkKind::CrosspostTag));
                let l = links@[j];
                assert(links@.contains(l));
                if l.kind == LinkKind::OriginalTag {
                    assert(self@.linked(l.base, p.1, LinkKind::OriginalTag));
                } else {
                    assert(self@.linked(l.base, p.1, LinkKind::CrosspostTag));
                }
            }
        }
        r
    }

    /// Evaluates `query` over the tags' filings; with `exclude_crossposts`
    /// only original tags count.
    pub fn search(&self, query: &Search, exclude_crossposts: bool) -> (r: Vec<SearchResult>)
        requires
            self@.basic_wf(),
        ensures
            lists_results(r@, hits(*query, filings(self@, exclude_crossposts))),
    {
        let placements = self.filings_list(exclude_crossposts);
        assert(placement_set(placements@) =~= filings(self@, exclude_crossposts));
        search_placements(query, &placements)
    }
}

} // verus!
