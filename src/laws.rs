use vstd::prelude::*;
use crate::anchors::{anchor_resolved, listed_under};
use crate::comments::{comment_deleted, comment_listed, is_parent};
use crate::posts::{crossposted, filed_under, post_made, tag_anchor, tag_link_for, tag_of_link};
use crate::store::{
    anchor_entry, root_anchor, shares_tag, store_step, updated, Link, LinkKind, Record, StoreError,
    StoreView,
};
use crate::text::{is_json_uint_text, lemma_tag_text_round_trip, lemma_tag_text_unique};
use crate::types::{Address, EntryView, Tag, VoteView};
use crate::votes::{lemma_first_vote_none, my_vote, my_vote_at, sole_active_vote, vote_cast};

verus! {

/// Resolving the same anchor twice gives the same address, writes nothing
/// the second time, and leaves exactly one entry that holds the anchor.
pub proof fn anchor_idempotent(
    s0: StoreView,
    s1: StoreView,
    s2: StoreView,
    anchor_type: Seq<char>,
    anchor_text: Seq<char>,
    a1: Address,
    a2: Address,
)
    requires
        s0.wf(),
        s1.wf(),
        anchor_resolved(s0, s1, anchor_type, anchor_text, Ok(a1)),
        anchor_resolved(s1, s2, anchor_type, anchor_text, Ok(a2)),
    ensures
        a1 == a2,
        s2 == s1,
        forall|i: int|
            0 <= i < s2.entries.len() ==> (s2.entries[i] == anchor_entry(anchor_type, anchor_text)
                <==> i == a1.0),
{
    assert(s1.entries[a1.0 as int] == anchor_entry(anchor_type, anchor_text));
}

/// Once a leaf anchor (non-empty text) resolves, it is listed under its
/// type, both its type anchor and the root anchor exist, and the type
/// anchor, unless it is the root itself, is linked from the root.
pub proof fn anchor_hierarchy(
    s0: StoreView,
    s1: StoreView,
    anchor_type: Seq<char>,
    anchor_text: Seq<char>,
    a: Address,
)
    requires
        s1.wf(),
        anchor_resolved(s0, s1, anchor_type, anchor_text, Ok(a)),
        anchor_text.len() > 0,
    ensures
        listed_under(s1, anchor_type, a),
        s1.holds(anchor_entry(anchor_type, Seq::empty())),
        s1.holds(root_anchor()),
        anchor_type != "anchor_types"@ ==> exists|j: int|
            0 <= j < s1.entries.len() && s1.entries[j] == anchor_entry(anchor_type, Seq::empty())
                && s1.hangs_under(j, root_anchor()),
{
    assert(s1.anchor_placed(a.0 as int));
    assert(Address(a.0 as int as u64) == a);
    let j = choose|j: int|
        0 <= j < s1.entries.len() && s1.entries[j] == anchor_entry(anchor_type, Seq::empty())
            && s1.linked(Address(j as u64), Address(a.0 as int as u64), crate::store::LinkKind::AnchorChild);
    assert(s1.anchor_placed(j));
    if s1.entries[j] == root_anchor() {
        assert(anchor_type == "anchor_types"@);
    } else {
        let k = choose|k: int|
            0 <= k < s1.entries.len() && s1.entries[k] == root_anchor() && s1.linked(
                Address(k as u64),
                Address(j as u64),
                crate::store::LinkKind::AnchorChild,
            );
    }
}

/// Once a comment is deleted, no link joins it to a parent it had, either
/// way, so that parent no longer lists it among its comments.
pub proof fn comment_delete_unlists(s0: StoreView, s1: StoreView, caller: Address, c: Address, parent: Address)
    requires
        comment_deleted(s0, s1, caller, c, Ok(())),
        is_parent(s0, c, parent),
    ensures
        !comment_listed(s1, parent, c),
        !is_parent(s1, c, parent),
{
}

/// After a vote cast as new content, the caller's next vote on the same
/// target sharing a tag with it finds an active vote to replace, and adds
/// no vote link.
pub proof fn vote_again_replaces(
    s0: StoreView,
    s1: StoreView,
    s2: StoreView,
    caller: Address,
    v1: VoteView,
    v2: VoteView,
    a1: Address,
    r2: Result<Address, StoreError>,
)
    requires
        s0.wf(),
        vote_cast(s0, s1, caller, v1, Ok(a1)),
        vote_cast(s1, s2, caller, v2, r2),
        v2.target_hash == v1.target_hash,
        shares_tag(v1.in_terms_of, v2.in_terms_of),
        !s0.holds(EntryView::Vote(v1)),
    ensures
        my_vote(s1, caller, v1.target_hash, v2.in_terms_of) is Some,
        s2.links == s1.links,
{
    let target = v1.target_hash;
    let k = s1.history.len() - 1;
    match my_vote(s0, caller, target, v1.in_terms_of) {
        Some(prior) => {
            lemma_first_vote_none(s0, caller, target, v1.in_terms_of, s0.history.len() as int);
            let (mid, r0) = store_step(s0, caller, EntryView::Vote(v1));
            assert(s1.history[k] == Record { author: caller, address: a1 });
            assert(a1 != prior);
            assert(s1.is_live(a1));
        },
        None => {
            assert(s1.history[k] == Record { author: caller, address: a1 });
        },
    }
    assert(my_vote_at(s1, caller, target, v2.in_terms_of, k)) by {
        let i = choose|i: int, j: int|
            0 <= i < v1.in_terms_of.len() && 0 <= j < v2.in_terms_of.len() && v1.in_terms_of[i] == v2.in_terms_of[j];
    }
    lemma_first_vote_none(s1, caller, target, v2.in_terms_of, s1.history.len() as int);
}

/// Votes of one author on one target in terms of disjoint tags stand side
/// by side: where no earlier vote of the author there shares a tag with the
/// second, the second is committed and linked from the target on its own,
/// and the first stays as it was.
pub proof fn vote_disjoint_independent(
    s0: StoreView,
    s1: StoreView,
    s2: StoreView,
    caller: Address,
    v1: VoteView,
    v2: VoteView,
    a1: Address,
    a2: Address,
)
    requires
        s0.wf(),
        vote_cast(s0, s1, caller, v1, Ok(a1)),
        vote_cast(s1, s2, caller, v2, Ok(a2)),
        v2.target_hash == v1.target_hash,
        !shares_tag(v1.in_terms_of, v2.in_terms_of),
        my_vote(s0, caller, v1.target_hash, v2.in_terms_of) is None,
    ensures
        s2.linked(v1.target_hash, a2, crate::store::LinkKind::Vote),
        s2.entry(a2) == EntryView::Vote(v2),
        s2.entry(a1) == EntryView::Vote(v1),
        s2.status[a1.0 as int] == s1.status[a1.0 as int],
{
    let target = v1.target_hash;
    lemma_first_vote_none(s0, caller, target, v2.in_terms_of, s0.history.len() as int);
    lemma_first_vote_none(s0, caller, target, v1.in_terms_of, s0.history.len() as int);
    assert forall|k: int| 0 <= k < s1.history.len() implies !my_vote_at(s1, caller, target, v2.in_terms_of, k) by {
        if k < s0.history.len() {
            let x = s0.history[k].address;
            if my_vote_at(s1, caller, target, v2.in_terms_of, k) {
                assert(s1.history[k] == s0.history[k]);
                assert(s1.entries[x.0 as int] == s0.entries[x.0 as int]);
                assert(!my_vote_at(s0, caller, target, v2.in_terms_of, k));
                assert(s1.status[x.0 as int] == s0.status[x.0 as int]);
            }
        } else {
            assert(s1.history[k].address == a1);
            assert(s1.entry(a1) == EntryView::Vote(v1));
        }
    }
    lemma_first_vote_none(s1, caller, target, v2.in_terms_of, s1.history.len() as int);
    assert(s2.entries[a1.0 as int] == s1.entries[a1.0 as int]);
}

/// A crosspost, whether it ran to the end or stopped, leaves the original
/// tags of an existing post as they were.
pub proof fn crosspost_keeps_original_tags(
    s0: StoreView,
    s1: StoreView,
    post: Address,
    tags: Seq<Tag>,
    filed: int,
    linked: int,
    t: Tag,
)
    requires
        s0.wf(),
        s0.grows_to(s1),
        crossposted(s0, s1, post, tags, filed, linked),
        s0.has(post),
        !(s0.entry(post) is Anchor),
    ensures
        tag_of_link(s1, post, LinkKind::OriginalTag, t) <==> tag_of_link(s0, post, LinkKind::OriginalTag, t),
{
    if tag_of_link(s0, post, LinkKind::OriginalTag, t) {
        let x = choose|x: Address|
            s0.linked(post, x, LinkKind::OriginalTag) && s0.has(x) && s0.entry(x) is Anchor && is_json_uint_text(
                s0.entry(x)->Anchor_0.anchor_text,
                t,
            );
        assert(s1.entries[x.0 as int] == s0.entries[x.0 as int]);
        assert(s1.linked(post, x, LinkKind::OriginalTag));
        assert(s1.has(x) && s1.entry(x) is Anchor);
        assert(is_json_uint_text(s1.entry(x)->Anchor_0.anchor_text, t));
    }
    if tag_of_link(s1, post, LinkKind::OriginalTag, t) {
        let x = choose|x: Address|
            s1.linked(post, x, LinkKind::OriginalTag) && s1.has(x) && s1.entry(x) is Anchor && is_json_uint_text(
                s1.entry(x)->Anchor_0.anchor_text,
                t,
            );
        let l = Link { base: post, target: x, kind: LinkKind::OriginalTag };
        assert(s1.links.contains(l));
        assert(!tag_link_for(s1, post, LinkKind::CrosspostTag, tags, linked, l));
        assert(s0.links.contains(l));
        assert(s0.has(x) && s0.entry(x) is Anchor);
        assert(s1.entries[x.0 as int] == s0.entries[x.0 as int]);
        assert(s0.linked(post, x, LinkKind::OriginalTag));
        assert(is_json_uint_text(s0.entry(x)->Anchor_0.anchor_text, t));
    }
}

/// A new post, at an address no link started from before, has exactly the
/// tags it was created with as original tags, and no crosspost tag.
pub proof fn new_post_tags(
    s0: StoreView,
    s1: StoreView,
    caller: Address,
    p: Address,
    pv: EntryView,
    tags: Seq<Tag>,
    t: Tag,
)
    requires
        post_made(s0, s1, caller, p, pv, tags, tags.len() as int, tags.len() as int),
        pv is Post,
        forall|l: Link| s0.links.contains(l) ==> l.base != p,
    ensures
        tag_of_link(s1, p, LinkKind::OriginalTag, t) <==> tags.contains(t),
        !tag_of_link(s1, p, LinkKind::CrosspostTag, t),
{
    if tags.contains(t) {
        let k = choose|k: int| 0 <= k < tags.len() && tags[k] == t;
        assert(filed_under(s1, p, tags[k], LinkKind::OriginalTag));
        let y = choose|y: Address|
            s1.has(y) && s1.entry(y) == tag_anchor(tags[k]) && s1.linked(p, y, LinkKind::OriginalTag) && s1.linked(
                y,
                p,
                LinkKind::OriginalTag,
            );
        lemma_tag_text_round_trip(t);
    }
    if tag_of_link(s1, p, LinkKind::OriginalTag, t) {
        let x = choose|x: Address|
            s1.linked(p, x, LinkKind::OriginalTag) && s1.has(x) && s1.entry(x) is Anchor && is_json_uint_text(
                s1.entry(x)->Anchor_0.anchor_text,
                t,
            );
        let l = Link { base: p, target: x, kind: LinkKind::OriginalTag };
        assert(s1.links.contains(l));
        assert(tag_link_for(s1, p, LinkKind::OriginalTag, tags, tags.len() as int, l));
        let (k, y) = choose|k: int, y: Address|
            0 <= k < tags.len() && k < tags.len() && s1.has(y) && s1.entry(y) == tag_anchor(tags[k]) && (l == Link {
                base: p,
                target: y,
                kind: LinkKind::OriginalTag,
            } || l == Link { base: y, target: p, kind: LinkKind::OriginalTag });
        assert(y == x);
        lemma_tag_text_unique(tags[k], t);
        assert(tags.contains(t));
    }
    if tag_of_link(s1, p, LinkKind::CrosspostTag, t) {
        let x = choose|x: Address|
            s1.linked(p, x, LinkKind::CrosspostTag) && s1.has(x) && s1.entry(x) is Anchor && is_json_uint_text(
                s1.entry(x)->Anchor_0.anchor_text,
                t,
            );
        let l = Link { base: p, target: x, kind: LinkKind::CrosspostTag };
        assert(s1.links.contains(l));
        assert(!tag_link_for(s1, p, LinkKind::OriginalTag, tags, tags.len() as int, l));
    }
}

/// Voting twice on one target in terms of the same tags: the second vote
/// works on exactly the vote the first left active, adds no vote link, and
/// either keeps that vote unchanged or records the new vote as its
/// successor; one active vote remains.
pub proof fn vote_same_tags_replaces_first(
    s0: StoreView,
    s1: StoreView,
    s2: StoreView,
    caller: Address,
    v1: VoteView,
    v2: VoteView,
    a1: Address,
    a2: Address,
)
    requires
        s0.wf(),
        s1.wf(),
        vote_cast(s0, s1, caller, v1, Ok(a1)),
        sole_active_vote(s1, caller, v1.target_hash, v1.in_terms_of, a1),
        vote_cast(s1, s2, caller, v2, Ok(a2)),
        sole_active_vote(s2, caller, v2.target_hash, v2.in_terms_of, a2),
        v2.target_hash == v1.target_hash,
        v2.in_terms_of == v1.in_terms_of,
        v1.in_terms_of.len() > 0,
        !s0.holds(EntryView::Vote(v1)),
    ensures
        my_vote(s1, caller, v1.target_hash, v1.in_terms_of) == Some(a1),
        s2.links == s1.links,
        a2 == a1 || s2.status[a1.0 as int] == crate::store::Status::Updated(a2),
        sole_active_vote(s2, caller, v1.target_hash, v1.in_terms_of, a2),
{
    assert(shares_tag(v1.in_terms_of, v2.in_terms_of)) by {
        assert(v1.in_terms_of[0] == v2.in_terms_of[0]);
    }
    vote_again_replaces(s0, s1, s2, caller, v1, v2, a1, Ok(a2));
    lemma_first_vote_none(s1, caller, v1.target_hash, v1.in_terms_of, s1.history.len() as int);
    assert(my_vote(s1, caller, v2.target_hash, v2.in_terms_of) == Some(a1));
    if a2 != a1 {
        assert(updated(s1, s2, caller, a1, EntryView::Vote(v2), Ok(a2)));
        let (mid, r0) = store_step(s1, caller, EntryView::Vote(v2));
        assert(s2.status == mid.status.update(a1.0 as int, crate::store::Status::Updated(a2)));
        assert(a1.0 < s1.status.len());
        assert(a1.0 < mid.status.len());
    }
}

} // verus!
