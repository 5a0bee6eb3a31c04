use vstd::prelude::*;
use crate::text::{is_json_uint_text, parse_tag};
use crate::types::{Address, AnchorView, Entry, EntryView, Tag};
use crate::validation::{
    create_verdict, delete_verdict, modify_verdict, validate_create, validate_delete,
    validate_modify, Rejection,
};

verus! {

broadcast use vstd::seq_lib::lemma_seq_contains_after_push;

/// Where an entry stands in its life.
#[derive(Clone, Copy, Debug, PartialEq, Eq, Structural)]
pub enum Status {
    Live,
    /// Replaced by the entry at the given address.
    Updated(Address),
    Deleted,
}

/// The kind of a link, which fixes what its two ends are.
#[derive(Clone, Copy, Debug, PartialEq, Eq, Structural)]
pub enum LinkKind {
    /// From a type anchor to its leaves, and from the root to type anchors.
    AnchorChild,
    /// Between a post and a tag it was posted under, both ways.
    OriginalTag,
    /// Between a post and a tag it was crossposted to, both ways.
    CrosspostTag,
    /// From an author to their post.
    Author,
    /// From a post to a comment on it.
    CommentOnPost,
    /// From a comment to the post it is on.
    ChildOfPost,
    /// From a comment to a reply.
    CommentOnComment,
    /// From a reply to the comment it answers.
    ChildOfComment,
    /// From an author to their comment.
    CommentAuthor,
    /// From a target to a vote on it.
    Vote,
}

/// A directed, typed edge between two addresses.
#[derive(Clone, Copy, Debug, PartialEq, Eq, Structural)]
pub struct Link {
    pub base: Address,
    pub target: Address,
    pub kind: LinkKind,
}

/// One write in an author's history.
#[derive(Clone, Copy, Debug, PartialEq, Eq, Structural)]
pub struct Record {
    pub author: Address,
    pub address: Address,
}

/// Why an operation failed.
#[derive(Clone, Copy, Debug, PartialEq, Eq, Structural)]
pub enum StoreError {
    /// Validation refused a write.
    Rejected(Rejection),
    /// No entry at the address.
    NotFound,
    /// The entry at the address is not of the kind the operation needs.
    WrongKind,
    /// No address is left for a new entry.
    Full,
    /// A replacement has the content of the entry it would replace.
    Unchanged,
}

/// Content-addressed entries, the links between them and the history of
/// writes; every write passes validation first.
pub struct Store {
    entries: Vec<Entry>,
    status: Vec<Status>,
    authors: Vec<Address>,
    links: Vec<Link>,
    history: Vec<Record>,
}

pub struct StoreView {
    /// The entry at each address.
    pub entries: Seq<EntryView>,
    pub status: Seq<Status>,
    /// Who first wrote the entry at each address.
    pub authors: Seq<Address>,
    pub links: Seq<Link>,
    /// Every write, oldest first.
    pub history: Seq<Record>,
}

impl View for Store {
    type V = StoreView;

    closed spec fn view(&self) -> StoreView {
        StoreView {
            entries: self.entries@.map_values(|e: Entry| e@),
            status: self.status@,
            authors: self.authors@,
            links: self.links@,
            history: self.history@,
        }
    }
}

pub open spec fn anchor_entry(anchor_type: Seq<char>, anchor_text: Seq<char>) -> EntryView {
    EntryView::Anchor(AnchorView { anchor_type, anchor_text })
}

/// The root of the anchor index.
pub open spec fn root_anchor() -> EntryView {
    anchor_entry("anchor_types"@, Seq::empty())
}

pub open spec fn shares_tag(a: Seq<Tag>, b: Seq<Tag>) -> bool {
    exists|i: int, j: int| 0 <= i < a.len() && 0 <= j < b.len() && a[i] == b[j]
}

impl StoreView {
    pub open spec fn has(self, a: Address) -> bool {
        a.0 < self.entries.len()
    }

    pub open spec fn entry(self, a: Address) -> EntryView {
        self.entries[a.0 as int]
    }

    /// Some address holds `e`.
    pub open spec fn holds(self, e: EntryView) -> bool {
        exists|i: int| 0 <= i < self.entries.len() && self.entries[i] == e
    }

    pub open spec fn is_live(self, a: Address) -> bool {
        self.has(a) && self.status[a.0 as int] == Status::Live
    }

    /// `author` has written the entry at `a`.
    pub open spec fn wrote(self, author: Address, a: Address) -> bool {
        self.history.contains(Record { author, address: a })
    }

    pub open spec fn linked(self, base: Address, target: Address, kind: LinkKind) -> bool {
        self.links.contains(Link { base, target, kind })
    }

    pub open spec fn basic_wf(self) -> bool {
        &&& self.status.len() == self.entries.len()
        &&& self.authors.len() == self.entries.len()
        &&& self.entries.len() < u64::MAX
        &&& forall|i: int, j: int|
            0 <= i < j < self.entries.len() ==> self.entries[i] != self.entries[j]
        &&& forall|k: int| 0 <= k < self.history.len() ==> self.has(#[trigger] self.history[k].address)
    }

    /// The entry at `i` is linked as a child from an entry that holds
    /// `parent`.
    pub open spec fn hangs_under(self, i: int, parent: EntryView) -> bool {
        exists|j: int|
            0 <= j < self.entries.len() && self.entries[j] == parent && self.linked(
                Address(j as u64),
                Address(i as u64),
                LinkKind::AnchorChild,
            )
    }

    /// The entry at `i`, if an anchor, has its place in the index: a leaf
    /// hangs under its type anchor, and a type anchor other than the root
    /// hangs under the root.
    pub open spec fn anchor_placed(self, i: int) -> bool {
        self.entries[i] is Anchor ==> if self.entries[i]->Anchor_0.anchor_text.len() > 0 {
            self.hangs_under(i, anchor_entry(self.entries[i]->Anchor_0.anchor_type, Seq::empty()))
        } else if self.entries[i] == root_anchor() {
            true
        } else {
            self.hangs_under(i, root_anchor())
        }
    }

    pub open spec fn anchors_indexed(self) -> bool {
        forall|i: int| 0 <= i < self.entries.len() ==> #[trigger] self.anchor_placed(i)
    }

    /// Every write of an authored entry, the first included, is by the
    /// entry's author.
    pub open spec fn authored(self) -> bool {
        &&& forall|k: int|
            0 <= k < self.history.len() && (#[trigger] self.history[k]).address.0 < self.entries.len()
                && self.entry(self.history[k].address).key_hash() is Some ==> self.entry(
                self.history[k].address,
            ).key_hash()->Some_0 == self.history[k].author
        &&& forall|i: int|
            0 <= i < self.entries.len() && (#[trigger] self.entries[i]).key_hash() is Some
                ==> self.authors[i] == self.entries[i].key_hash()->Some_0
    }

    /// Each tag link has an anchor at one end.
    pub open spec fn tag_links_anchored(self) -> bool {
        forall|l: Link|
            #[trigger] self.links.contains(l) && (l.kind == LinkKind::OriginalTag || l.kind == LinkKind::CrosspostTag)
                ==> (self.has(l.base) && self.entry(l.base) is Anchor) || (self.has(l.target) && self.entry(
                l.target,
            ) is Anchor)
    }

    pub open spec fn wf(self) -> bool {
        self.basic_wf() && self.anchors_indexed() && self.authored() && self.tag_links_anchored()
    }

    /// `s` keeps what `self` holds: entries and their authors as a prefix,
    /// every link, every write.
    pub open spec fn grows_to(self, s: StoreView) -> bool {
        &&& self.entries.len() <= s.entries.len()
        &&& forall|i: int|
            0 <= i < self.entries.len() ==> #[trigger] s.entries[i] == self.entries[i]
                && s.authors[i] == self.authors[i]
        &&& forall|l: Link| self.links.contains(l) ==> s.links.contains(l)
        &&& forall|r: Record| self.history.contains(r) ==> s.history.contains(r)
    }

    /// No entry of `self` has changed status in `s`.
    pub open spec fn keeps_status_of(self, s: StoreView) -> bool {
        forall|i: int| 0 <= i < self.entries.len() ==> #[trigger] s.status[i] == self.status[i]
    }

    /// The verdict on adding or removing link `l` by `author`.
    pub open spec fn link_verdict(self, author: Address, l: Link) -> Result<(), Rejection> {
        match l.kind {
            LinkKind::OriginalTag => self.tag_link_verdict(author, l, true),
            LinkKind::CrosspostTag => self.tag_link_verdict(author, l, false),
            LinkKind::Author => if self.has(l.target) && self.entry(l.target) is Post {
                if self.entry(l.target)->Post_0.key_hash == l.base {
                    Ok(())
                } else {
                    Err(Rejection::AuthorMismatch)
                }
            } else {
                Err(Rejection::NotExpectedEntry)
            },
            LinkKind::CommentAuthor => if self.has(l.target) && self.entry(l.target) is Comment {
                if self.entry(l.target)->Comment_0.key_hash == l.base {
                    Ok(())
                } else {
                    Err(Rejection::AuthorMismatch)
                }
            } else {
                Err(Rejection::NotExpectedEntry)
            },
            LinkKind::Vote => if self.has(l.target) && self.entry(l.target) is Vote {
                if self.conflicting_vote(author, l.base, l.target) {
                    Err(Rejection::AlreadyVoted)
                } else {
                    Ok(())
                }
            } else {
                Err(Rejection::NotExpectedEntry)
            },
            _ => Ok(()),
        }
    }

    /// The post end of a tag link: the end that is not an anchor.
    pub open spec fn tag_link_post(self, l: Link) -> Address {
        if self.has(l.base) && self.entry(l.base) is Anchor { l.target } else { l.base }
    }

    pub open spec fn tag_link_anchor(self, l: Link) -> Address {
        if self.has(l.base) && self.entry(l.base) is Anchor { l.base } else { l.target }
    }

    /// A tag link joins a post and a tag anchor, in either direction; the
    /// anchor's text must read as a tag, and for an original tag the writer
    /// must have written the post.
    pub open spec fn tag_link_verdict(self, author: Address, l: Link, must_be_author: bool) -> Result<(), Rejection> {
        let post = self.tag_link_post(l);
        let anchor = self.tag_link_anchor(l);
        if must_be_author && !self.wrote(author, post) {
            Err(Rejection::PostNotInChain)
        } else if self.has(anchor) && self.entry(anchor) is Anchor {
            if exists|n: u64| is_json_uint_text(self.entry(anchor)->Anchor_0.anchor_text, n) {
                Ok(())
            } else {
                Err(Rejection::InvalidTag)
            }
        } else {
            Err(Rejection::NotExpectedEntry)
        }
    }

    /// `author` holds another live vote, on `target`, that shares a tag
    /// with the vote at `candidate`.
    pub open spec fn conflicting_vote(self, author: Address, target: Address, candidate: Address) -> bool {
        self.conflicts_with(author, target, candidate, self.entry(candidate)->Vote_0.in_terms_of)
    }

    /// `author` holds a live vote on `target`, other than the one at
    /// `exclude`, that shares a tag with `tags`.
    pub open spec fn conflicts_with(self, author: Address, target: Address, exclude: Address, tags: Seq<Tag>) -> bool {
        exists|k: int|
            #![trigger self.history[k]]
            0 <= k < self.history.len() && self.history[k].author == author
                && self.other_vote_conflicts(self.history[k].address, target, exclude, tags)
    }

    pub open spec fn other_vote_conflicts(self, other: Address, target: Address, exclude: Address, tags: Seq<Tag>) -> bool {
        &&& other != exclude
        &&& self.is_live(other)
        &&& self.entry(other) is Vote
        &&& self.entry(other)->Vote_0.target_hash == target
        &&& shares_tag(self.entry(other)->Vote_0.in_terms_of, tags)
    }
}

/// The state and result after `author` stores `e` without validation: an
/// entry of the same content keeps its address, a new one takes the next
/// address; either way the write joins the history.
pub open spec fn store_step(s0: StoreView, author: Address, e: EntryView) -> (StoreView, Result<Address, StoreError>) {
    if s0.holds(e) {
        let a = Address((choose|i: int| 0 <= i < s0.entries.len() && s0.entries[i] == e) as u64);
        (StoreView { history: s0.history.push(Record { author, address: a }), ..s0 }, Ok(a))
    } else if s0.entries.len() + 1 >= u64::MAX {
        (s0, Err(StoreError::Full))
    } else {
        let a = Address(s0.entries.len() as u64);
        (
            StoreView {
                entries: s0.entries.push(e),
                status: s0.status.push(Status::Live),
                authors: s0.authors.push(author),
                history: s0.history.push(Record { author, address: a }),
                ..s0
            },
            Ok(a),
        )
    }
}

pub open spec fn stored(
    s0: StoreView,
    s1: StoreView,
    author: Address,
    e: EntryView,
    r: Result<Address, StoreError>,
) -> bool {
    (s1, r) == store_step(s0, author, e)
}

/// `s1` is `s0` after `author` committed `e`, validated as a new entry.
pub open spec fn committed(
    s0: StoreView,
    s1: StoreView,
    author: Address,
    e: EntryView,
    r: Result<Address, StoreError>,
) -> bool {
    match create_verdict(e, seq![author]) {
        Err(why) => r == Err::<Address, StoreError>(StoreError::Rejected(why)) && s1 == s0,
        Ok(_) => stored(s0, s1, author, e, r),
    }
}

/// `s1` is `s0` after `author` replaced the entry at `prior` by `e`, which
/// records the new entry as its successor; a replacement by the same
/// content is refused.
pub open spec fn updated(
    s0: StoreView,
    s1: StoreView,
    author: Address,
    prior: Address,
    e: EntryView,
    r: Result<Address, StoreError>,
) -> bool {
    if !s0.has(prior) {
        r == Err::<Address, StoreError>(StoreError::NotFound) && s1 == s0
    } else {
        match modify_verdict(s0.entry(prior), e, seq![author], seq![s0.authors[prior.0 as int]]) {
            Err(why) => r == Err::<Address, StoreError>(StoreError::Rejected(why)) && s1 == s0,
            Ok(_) => if e == s0.entry(prior) {
                r == Err::<Address, StoreError>(StoreError::Unchanged) && s1 == s0
            } else {
                let (mid, r0) = store_step(s0, author, e);
                &&& r == r0
                &&& s1 == match r0 {
                    Ok(a) => StoreView { status: mid.status.update(prior.0 as int, Status::Updated(a)), ..mid },
                    Err(_) => mid,
                }
            },
        }
    }
}

/// `s1` is `s0` after `author` deleted the entry at `a`.
pub open spec fn deleted(s0: StoreView, s1: StoreView, author: Address, a: Address, r: Result<(), StoreError>) -> bool {
    if !s0.has(a) {
        r == Err::<(), StoreError>(StoreError::NotFound) && s1 == s0
    } else {
        match delete_verdict(s0.entry(a), seq![author], seq![s0.authors[a.0 as int]]) {
            Err(why) => r == Err::<(), StoreError>(StoreError::Rejected(why)) && s1 == s0,
            Ok(_) => r == Ok::<(), StoreError>(()) && s1 == StoreView {
                status: s0.status.update(a.0 as int, Status::Deleted),
                ..s0
            },
        }
    }
}

/// `s1` is `s0` after `author` added link `l`.
pub open spec fn link_added(s0: StoreView, s1: StoreView, author: Address, l: Link, r: Result<(), StoreError>) -> bool {
    match s0.link_verdict(author, l) {
        Err(why) => r == Err::<(), StoreError>(StoreError::Rejected(why)) && s1 == s0,
        Ok(_) => r == Ok::<(), StoreError>(()) && s1 == StoreView { links: s0.links.push(l), ..s0 },
    }
}

/// `s1` is `s0` after `author` removed every copy of link `l`.
pub open spec fn link_removed(s0: StoreView, s1: StoreView, author: Address, l: Link, r: Result<(), StoreError>) -> bool {
    match s0.link_verdict(author, l) {
        Err(why) => r == Err::<(), StoreError>(StoreError::Rejected(why)) && s1 == s0,
        Ok(_) => r == Ok::<(), StoreError>(()) && s1 == StoreView {
            links: s0.links.filter(other_than(l)),
            ..s0
        },
    }
}

proof fn lemma_stored_wf(s0: StoreView, s1: StoreView, author: Address, e: EntryView, r: Result<Address, StoreError>)
    requires
        s0.basic_wf(),
        stored(s0, s1, author, e, r),
    ensures
        s1.basic_wf(),
        s0.grows_to(s1),
        s0.anchors_indexed() && !(e is Anchor) ==> s1.anchors_indexed(),
        s1.links == s0.links,
{
    lemma_stored_shape(s0, s1, author, e, r);
    if s0.anchors_indexed() && !(e is Anchor) {
        lemma_anchors_kept(s0, s1);
    }
}

/// Anchors stay indexed while entries and links only grow, where each new
/// entry has its place.
pub(crate) proof fn lemma_anchors_kept(s0: StoreView, s1: StoreView)
    requires
        s0.anchors_indexed(),
        s0.grows_to(s1),
        forall|i: int| s0.entries.len() <= i < s1.entries.len() ==> s1.anchor_placed(i),
    ensures
        s1.anchors_indexed(),
{
    assert forall|i: int| 0 <= i < s1.entries.len() implies #[trigger] s1.anchor_placed(i) by {
        if i < s0.entries.len() {
            assert(s0.anchor_placed(i));
            assert(s0.entries[i] == s1.entries[i]);
            if s1.entries[i] is Anchor {
                let parent = if s1.entries[i]->Anchor_0.anchor_text.len() > 0 {
                    anchor_entry(s1.entries[i]->Anchor_0.anchor_type, Seq::empty())
                } else {
                    root_anchor()
                };
                if s0.hangs_under(i, parent) {
                    lemma_hangs_kept(s0, s1, i, parent);
                }
            }
        }
    }
}

/// A child link stays where entries keep their places and child links stay.
pub(crate) proof fn lemma_hangs_kept(s0: StoreView, s1: StoreView, i: int, parent: EntryView)
    requires
        s0.hangs_under(i, parent),
        s0.entries.len() <= s1.entries.len(),
        forall|k: int| 0 <= k < s0.entries.len() ==> #[trigger] s1.entries[k] == s0.entries[k],
        forall|x: Link| x.kind == LinkKind::AnchorChild && s0.links.contains(x) ==> s1.links.contains(x),
    ensures
        s1.hangs_under(i, parent),
{
    let j = choose|j: int|
        0 <= j < s0.entries.len() && s0.entries[j] == parent && s0.linked(
            Address(j as u64),
            Address(i as u64),
            LinkKind::AnchorChild,
        );
    assert(s1.entries[j] == s0.entries[j]);
    assert(s1.linked(Address(j as u64), Address(i as u64), LinkKind::AnchorChild));
}

proof fn lemma_stored_shape(s0: StoreView, s1: StoreView, author: Address, e: EntryView, r: Result<Address, StoreError>)
    requires
        s0.basic_wf(),
        stored(s0, s1, author, e, r),
    ensures
        s1.basic_wf(),
        s0.grows_to(s1),
        forall|i: int| s0.entries.len() <= i < s1.entries.len() ==> s1.entries[i] == e,
        s1.links == s0.links,
{
    if !s0.holds(e) && s0.entries.len() + 1 < u64::MAX {
        assert(s1.entries.subrange(0, s0.entries.len() as int) =~= s0.entries);
        assert(s1.authors.subrange(0, s0.entries.len() as int) =~= s0.authors);
        assert forall|k: int| 0 <= k < s1.history.len() implies s1.has(#[trigger] s1.history[k].address) by {
            if k < s0.history.len() {
                assert(s1.history[k] == s0.history[k]);
            }
        }
    } else if s0.holds(e) {
        assert(s1.entries.subrange(0, s0.entries.len() as int) =~= s0.entries);
        assert(s1.authors.subrange(0, s0.entries.len() as int) =~= s0.authors);
        assert forall|k: int| 0 <= k < s1.history.len() implies s1.has(#[trigger] s1.history[k].address) by {
            if k < s0.history.len() {
                assert(s1.history[k] == s0.history[k]);
            }
        }
    } else {
        assert(s1.entries.subrange(0, s0.entries.len() as int) =~= s0.entries);
        assert(s1.authors.subrange(0, s0.entries.len() as int) =~= s0.authors);
    }
}

impl Store {
    pub fn new() -> (s: Store)
        ensures
            s@.wf(),
            s@.entries.len() == 0,
            s@.links.len() == 0,
            s@.history.len() == 0,
    {
        let s = Store {
            entries: Vec::new(),
            status: Vec::new(),
            authors: Vec::new(),
            links: Vec::new(),
            history: Vec::new(),
        };
        assert(s@.entries =~= Seq::<EntryView>::empty());
        s
    }

    /// The address that holds `e`, if any.
    pub fn address_of(&self, e: &Entry) -> (r: Option<Address>)
        requires
            self@.basic_wf(),
        ensures
            r matches Some(a) ==> self@.has(a) && self@.entry(a) == e@,
            r is None ==> !self@.holds(e@),
    {
        let mut i: usize = 0;
        while i < self.entries.len()
            invariant
                i <= self.entries.len(),
                self@.basic_wf(),
                forall|k: int| 0 <= k < i ==> self@.entries[k] != e@,
            decreases self.entries.len() - i,
        {
            if self.entries[i].same_content(e) {
                return Some(Address(i as u64));
            }
            i = i + 1;
        }
        None
    }

    /// The entry at `a`, if any.
    pub fn get(&self, a: Address) -> (r: Option<&Entry>)
        requires
            self@.basic_wf(),
        ensures
            r matches Some(e) ==> self@.has(a) && e@ == self@.entry(a),
            r is None ==> !self@.has(a),
    {
        if a.0 < self.entries.len() as u64 {
            Some(&self.entries[a.0 as usize])
        } else {
            None
        }
    }

    /// Whether some entry lives at `a`.
    pub fn contains(&self, a: Address) -> (r: bool)
        requires
            self@.basic_wf(),
        ensures
            r == self@.has(a),
    {
        a.0 < self.entries.len() as u64
    }

    fn store(&mut self, author: Address, e: Entry) -> (r: Result<Address, StoreError>)
        requires
            old(self)@.basic_wf(),
        ensures
            stored(old(self)@, final(self)@, author, e@, r),
            final(self)@.basic_wf(),
            old(self)@.grows_to(final(self)@),
    {
        let r = match self.address_of(&e) {
            Some(a) => {
                self.history.push(Record { author, address: a });
                Ok(a)
            },
            None => {
                if self.entries.len() as u64 >= u64::MAX - 1 {
                    Err(StoreError::Full)
                } else {
                    let a = Address(self.entries.len() as u64);
                    self.entries.push(e);
                    self.status.push(Status::Live);
                    self.authors.push(author);
                    self.history.push(Record { author, address: a });
                    Ok(a)
                }
            },
        };
        proof {
            assert(final(self)@.entries =~= old(self)@.entries.push(e@) || final(self)@.entries
                =~= old(self)@.entries);
            lemma_stored_wf(old(self)@, final(self)@, author, e@, r);
        }
        r
    }
}

impl Store {
    pub(crate) fn commit(&mut self, author: Address, e: Entry) -> (r: Result<Address, StoreError>)
        requires
            old(self)@.basic_wf(),
        ensures
            committed(old(self)@, final(self)@, author, e@, r),
            old(self)@.keeps_status_of(final(self)@),
            final(self)@.basic_wf(),
            old(self)@.grows_to(final(self)@),
            old(self)@.anchors_indexed() && !(e@ is Anchor) ==> final(self)@.anchors_indexed(),
            old(self)@.authored() ==> final(self)@.authored(),
            old(self)@.tag_links_anchored() ==> final(self)@.tag_links_anchored(),
            final(self)@.links == old(self)@.links,
    {
        let provenances = vec![author];
        assert(provenances@ =~= seq![author]);
        match validate_create(&e, &provenances) {
            Err(why) => Err(StoreError::Rejected(why)),
            Ok(()) => {
                let ghost s0 = self@;
                let r = self.store(author, e);
                proof {
                    lemma_stored_wf(s0, self@, author, e@, r);
                    if s0.authored() {
                        assert(seq![author][0] == author);
                        lemma_stored_authored(s0, self@, author, e@, r);
                    }
                }
                r
            },
        }
    }

    pub(crate) fn update(&mut self, author: Address, prior: Address, e: Entry) -> (r: Result<Address, StoreError>)
        requires
            old(self)@.basic_wf(),
        ensures
            updated(old(self)@, final(self)@, author, prior, e@, r),
            final(self)@.basic_wf(),
            old(self)@.grows_to(final(self)@),
            old(self)@.anchors_indexed() ==> final(self)@.anchors_indexed(),
            old(self)@.authored() ==> final(self)@.authored(),
            old(self)@.tag_links_anchored() ==> final(self)@.tag_links_anchored(),
            final(self)@.links == old(self)@.links,
    {
        if prior.0 >= self.entries.len() as u64 {
            return Err(StoreError::NotFound);
        }
        let i = prior.0 as usize;
        let provenances = vec![author];
        let old_provenances = vec![self.authors[i]];
        assert(provenances@ =~= seq![author]);
        assert(old_provenances@ =~= seq![self@.authors[i as int]]);
        match validate_modify(&self.entries[i], &e, &provenances, &old_provenances) {
            Err(why) => Err(StoreError::Rejected(why)),
            Ok(()) => {
                if self.entries[i].same_content(&e) {
                    return Err(StoreError::Unchanged);
                }
                let ghost s0 = self@;
                assert(!(e@ is Anchor));
                let r = self.store(author, e);
                proof {
                    lemma_stored_wf(s0, self@, author, e@, r);
                    if s0.authored() {
                        assert(seq![author][0] == author);
                        lemma_stored_authored(s0, self@, author, e@, r);
                    }
                }
                let ghost mid = self@;
                match r {
                    Ok(a) => {
                        assert(a != prior);
                        self.status.set(i, Status::Updated(a));
                        proof {
                            assert(self@ == StoreView {
                                status: mid.status.update(i as int, Status::Updated(a)),
                                ..mid
                            });
                            assert(self@.entries == mid.entries);
                            if mid.anchors_indexed() {
                                lemma_anchors_kept(mid, self@);
                            }
                        }
                    },
                    Err(_) => {},
                }
                r
            },
        }
    }

    pub(crate) fn delete(&mut self, author: Address, a: Address) -> (r: Result<(), StoreError>)
        requires
            old(self)@.basic_wf(),
        ensures
            deleted(old(self)@, final(self)@, author, a, r),
            final(self)@.basic_wf(),
            old(self)@.grows_to(final(self)@),
            old(self)@.anchors_indexed() ==> final(self)@.anchors_indexed(),
            old(self)@.authored() ==> final(self)@.authored(),
            old(self)@.tag_links_anchored() ==> final(self)@.tag_links_anchored(),
            final(self)@.links == old(self)@.links,
    {
        if a.0 >= self.entries.len() as u64 {
            return Err(StoreError::NotFound);
        }
        let i = a.0 as usize;
        let provenances = vec![author];
        let old_provenances = vec![self.authors[i]];
        assert(provenances@ =~= seq![author]);
        assert(old_provenances@ =~= seq![self@.authors[i as int]]);
        match validate_delete(&self.entries[i], &provenances, &old_provenances) {
            Err(why) => Err(StoreError::Rejected(why)),
            Ok(()) => {
                let ghost s0 = self@;
                self.status.set(i, Status::Deleted);
                proof {
                    assert(self@ == StoreView { status: s0.status.update(i as int, Status::Deleted), ..s0 });
                    assert(self@.entries.subrange(0, s0.entries.len() as int) =~= s0.entries);
                    assert(self@.authors.subrange(0, s0.entries.len() as int) =~= s0.authors);
                    if s0.anchors_indexed() {
                        lemma_anchors_kept(s0, self@);
                    }
                    if s0.tag_links_anchored() {
                        lemma_tag_links_kept(s0, self@);
                    }
                }
                Ok(())
            },
        }
    }

    /// What deleting the entry at `a` by `author` would give, without
    /// deleting it.
    pub(crate) fn check_delete(&self, author: Address, a: Address) -> (r: Result<(), StoreError>)
        requires
            self@.basic_wf(),
        ensures
            !self@.has(a) ==> r == Err::<(), StoreError>(StoreError::NotFound),
            self@.has(a) ==> r == match delete_verdict(self@.entry(a), seq![author], seq![self@.authors[a.0 as int]]) {
                Err(why) => Err::<(), StoreError>(StoreError::Rejected(why)),
                Ok(_) => Ok(()),
            },
    {
        if a.0 >= self.entries.len() as u64 {
            return Err(StoreError::NotFound);
        }
        let i = a.0 as usize;
        let provenances = vec![author];
        let old_provenances = vec![self.authors[i]];
        assert(provenances@ =~= seq![author]);
        assert(old_provenances@ =~= seq![self@.authors[i as int]]);
        match validate_delete(&self.entries[i], &provenances, &old_provenances) {
            Err(why) => Err(StoreError::Rejected(why)),
            Ok(()) => Ok(()),
        }
    }

    /// Whether `author` has written the entry at `a`.
    pub fn wrote(&self, author: Address, a: Address) -> (r: bool)
        ensures
            r == self@.wrote(author, a),
    {
        let mut k: usize = 0;
        while k < self.history.len()
            invariant
                k <= self.history.len(),
                forall|j: int| 0 <= j < k ==> self@.history[j] != (Record { author, address: a }),
            decreases self.history.len() - k,
        {
            if self.history[k].author == author && self.history[k].address == a {
                assert(self@.history[k as int] == Record { author, address: a });
                return true;
            }
            k = k + 1;
        }
        false
    }

    /// Whether `author` holds a live vote on `target`, other than the one
    /// at `exclude`, that shares a tag with `cand_tags`.
    pub fn has_conflicting_vote(&self, author: Address, target: Address, exclude: Address, cand_tags: &Vec<Tag>) -> (r: bool)
        requires
            self@.basic_wf(),
        ensures
            r == self@.conflicts_with(author, target, exclude, cand_tags@),
    {
        let mut k: usize = 0;
        while k < self.history.len()
            invariant
                self@.basic_wf(),
                k <= self.history.len(),
                forall|j: int|
                    #![trigger self@.history[j]]
                    0 <= j < k ==> !(self@.history[j].author == author
                        && self@.other_vote_conflicts(self@.history[j].address, target, exclude, cand_tags@)),
            decreases self.history.len() - k,
        {
            let rec = self.history[k];
            if rec.author == author && rec.address != exclude {
                assert(self@.has(self@.history[k as int].address));
                assert(rec.address.0 < self.entries.len());
                let i = rec.address.0 as usize;
                assert(self@.entries[i as int] == self.entries@[i as int]@);
                if self.status[i] == Status::Live {
                    match &self.entries[i] {
                        Entry::Vote(v) => {
                            if v.target_hash == target && tags_meet(&v.in_terms_of, cand_tags) {
                                assert(self@.other_vote_conflicts(rec.address, target, exclude, cand_tags@));
                                assert(self@.history[k as int].author == author);
                                return true;
                            }
                        },
                        _ => {},
                    }
                }
            }
            k = k + 1;
        }
        false
    }

    /// Validates adding or removing link `l` by `author`, as every peer
    /// does on receiving that write.
    pub fn validate_link(&self, author: Address, l: Link) -> (r: Result<(), Rejection>)
        requires
            self@.basic_wf(),
        ensures
            r == self@.link_verdict(author, l),
    {
        match l.kind {
            LinkKind::OriginalTag => self.validate_tag_link(author, l, true),
            LinkKind::CrosspostTag => self.validate_tag_link(author, l, false),
            LinkKind::Author => match self.get(l.target) {
                Some(Entry::Post(p)) => if p.key_hash == l.base {
                    Ok(())
                } else {
                    Err(Rejection::AuthorMismatch)
                },
                _ => Err(Rejection::NotExpectedEntry),
            },
            LinkKind::CommentAuthor => match self.get(l.target) {
                Some(Entry::Comment(c)) => if c.key_hash == l.base {
                    Ok(())
                } else {
                    Err(Rejection::AuthorMismatch)
                },
                _ => Err(Rejection::NotExpectedEntry),
            },
            LinkKind::Vote => match self.get(l.target) {
                Some(Entry::Vote(v)) => if self.has_conflicting_vote(author, l.base, l.target, &v.in_terms_of) {
                    Err(Rejection::AlreadyVoted)
                } else {
                    Ok(())
                },
                _ => Err(Rejection::NotExpectedEntry),
            },
            _ => Ok(()),
        }
    }

    /// Validates a tag link: the anchor end must read as a tag, and for an
    /// original tag `author` must have written the post end.
    pub fn validate_tag_link(&self, author: Address, l: Link, must_be_author: bool) -> (r: Result<(), Rejection>)
        requires
            self@.basic_wf(),
        ensures
            r == self@.tag_link_verdict(author, l, must_be_author),
    {
        let from_anchor = match self.get(l.base) {
            Some(Entry::Anchor(_)) => true,
            _ => false,
        };
        let (post, anchor) = if from_anchor {
            (l.target, l.base)
        } else {
            (l.base, l.target)
        };
        assert(anchor == self@.tag_link_anchor(l));
        if must_be_author && !self.wrote(author, post) {
            return Err(Rejection::PostNotInChain);
        }
        match self.get(anchor) {
            Some(Entry::Anchor(an)) => {
                match parse_tag(an.anchor_text.as_str()) {
                    Some(n) => {
                        assert(is_json_uint_text(self@.entry(anchor)->Anchor_0.anchor_text, n));
                        Ok(())
                    },
                    None => {
                        assert forall|n: u64| !is_json_uint_text(an.anchor_text@, n) by {}
                        Err(Rejection::InvalidTag)
                    },
                }
            },
            _ => Err(Rejection::NotExpectedEntry),
        }
    }

    pub(crate) fn add_link(&mut self, author: Address, l: Link) -> (r: Result<(), StoreError>)
        requires
            old(self)@.basic_wf(),
        ensures
            link_added(old(self)@, final(self)@, author, l, r),
            final(self)@.status == old(self)@.status,
            final(self)@.basic_wf(),
            old(self)@.grows_to(final(self)@),
            old(self)@.anchors_indexed() ==> final(self)@.anchors_indexed(),
            old(self)@.authored() ==> final(self)@.authored(),
            old(self)@.tag_links_anchored() ==> final(self)@.tag_links_anchored(),
    {
        match self.validate_link(author, l) {
            Err(why) => Err(StoreError::Rejected(why)),
            Ok(()) => {
                let ghost s0 = self@;
                self.links.push(l);
                proof {
                    assert(self@.entries.subrange(0, s0.entries.len() as int) =~= s0.entries);
                    assert(self@.authors.subrange(0, s0.entries.len() as int) =~= s0.authors);
                    if s0.anchors_indexed() {
                        lemma_anchors_kept(s0, self@);
                    }
                    if s0.tag_links_anchored() {
                        assert forall|x: Link|
                            #[trigger] self@.links.contains(x) && (x.kind == LinkKind::OriginalTag || x.kind
                                == LinkKind::CrosspostTag) implies (self@.has(x.base) && self@.entry(x.base) is Anchor) || (
                            self@.has(x.target) && self@.entry(x.target) is Anchor) by {
                            if x == l {
                                let a = s0.tag_link_anchor(l);
                                assert(s0.has(a) && s0.entry(a) is Anchor);
                            } else {
                                assert(s0.links.contains(x));
                            }
                        }
                    }
                }
                Ok(())
            },
        }
    }

    /// Removes every copy of `l`; index links are never removed.
    pub(crate) fn remove_link(&mut self, author: Address, l: Link) -> (r: Result<(), StoreError>)
        requires
            old(self)@.basic_wf(),
            l.kind != LinkKind::AnchorChild,
        ensures
            link_removed(old(self)@, final(self)@, author, l, r),
            r is Ok ==> !final(self)@.links.contains(l),
            r is Ok ==> forall|x: Link| old(self)@.links.contains(x) && x != l ==> #[trigger] final(self)@.links.contains(x),
            forall|x: Link| final(self)@.links.contains(x) ==> old(self)@.links.contains(x),
            final(self)@.basic_wf(),
            old(self)@.anchors_indexed() ==> final(self)@.anchors_indexed(),
            old(self)@.authored() ==> final(self)@.authored(),
            old(self)@.tag_links_anchored() ==> final(self)@.tag_links_anchored(),
    {
        match self.validate_link(author, l) {
            Err(why) => Err(StoreError::Rejected(why)),
            Ok(()) => {
                let ghost s0 = self@;
                let kept = without(&self.links, l);
                self.links = kept;
                proof {
                    assert(self@ == StoreView { links: s0.links.filter(other_than(l)), ..s0 });
                    assert forall|x: Link| self@.links.contains(x) implies s0.links.contains(x) && x != l by {
                        s0.links.lemma_filter_contains_rev(other_than(l), x);
                        let k = choose|k: int| 0 <= k < self@.links.len() && self@.links[k] == x;
                        s0.links.lemma_filter_pred(other_than(l), k);
                    }
                    if s0.tag_links_anchored() {
                        lemma_tag_links_kept(s0, self@);
                    }
                    if s0.anchors_indexed() {
                        assert forall|x: Link| x.kind == LinkKind::AnchorChild && s0.links.contains(x)
                            implies self@.links.contains(x) by {
                            let k = choose|k: int| 0 <= k < s0.links.len() && s0.links[k] == x;
                            s0.links.lemma_filter_contains(other_than(l), k);
                        }
                        assert forall|x: Link| s0.links.contains(x) && x != l implies #[trigger] self@.links.contains(x) by {
                            let k = choose|k: int| 0 <= k < s0.links.len() && s0.links[k] == x;
                            s0.links.lemma_filter_contains(other_than(l), k);
                        }
                        lemma_anchor_links_kept(s0, self@);
                    }
                }
                Ok(())
            },
        }
    }

    /// Every write, oldest first.
    pub fn history(&self) -> (r: &Vec<Record>)
        ensures
            r@ == self@.history,
    {
        &self.history
    }

    /// Whether the entry at `a` is neither replaced nor deleted.
    pub fn is_live(&self, a: Address) -> (r: bool)
        requires
            self@.basic_wf(),
        ensures
            r == self@.is_live(a),
    {
        a.0 < self.entries.len() as u64 && self.status[a.0 as usize] == Status::Live
    }

    /// Every link, oldest first.
    pub fn links(&self) -> (r: &Vec<Link>)
        ensures
            r@ == self@.links,
    {
        &self.links
    }

    /// The targets of the links of `kind` from `base`.
    pub fn get_links(&self, base: Address, kind: LinkKind) -> (r: Vec<Address>)
        ensures
            forall|a: Address| r@.contains(a) <==> self@.linked(base, a, kind),
    {
        let mut r: Vec<Address> = Vec::new();
        let mut i: usize = 0;
        while i < self.links.len()
            invariant
                i <= self.links.len(),
                forall|a: Address|
                    r@.contains(a) <==> self@.links.subrange(0, i as int).contains(
                        Link { base, target: a, kind },
                    ),
            decreases self.links.len() - i,
        {
            let x = self.links[i];
            assert(self@.links.subrange(0, i + 1) =~= self@.links.subrange(0, i as int).push(x));
            if x.base == base && x.kind == kind {
                r.push(x.target);
            }
            i = i + 1;
        }
        assert(self@.links.subrange(0, i as int) =~= self@.links);
        r
    }
}

pub open spec fn other_than(l: Link) -> spec_fn(Link) -> bool {
    |x: Link| x != l
}

/// `links` without any copy of `l`.
fn without(links: &Vec<Link>, l: Link) -> (r: Vec<Link>)
    ensures
        r@ == links@.filter(other_than(l)),
{
    let mut kept: Vec<Link> = Vec::new();
    let mut i: usize = 0;
    while i < links.len()
        invariant
            i <= links.len(),
            kept@ == links@.subrange(0, i as int).filter(other_than(l)),
        decreases links.len() - i,
    {
        let x = links[i];
        proof {
            assert(links@.subrange(0, i + 1) =~= links@.subrange(0, i as int).push(x));
            links@.subrange(0, i as int).lemma_filter_push(x, other_than(l));
        }
        if x != l {
            kept.push(x);
        }
        i = i + 1;
    }
    assert(links@.subrange(0, i as int) =~= links@);
    kept
}

/// Whether the two lists of tags have one in common.
pub fn tags_meet(a: &Vec<Tag>, b: &Vec<Tag>) -> (r: bool)
    ensures
        r == shares_tag(a@, b@),
{
    let mut i: usize = 0;
    while i < a.len()
        invariant
            i <= a.len(),
            forall|x: int, y: int| 0 <= x < i && 0 <= y < b@.len() ==> a@[x] != b@[y],
        decreases a.len() - i,
    {
        if crate::search::has_tag(b, a[i]) {
            let ghost y = choose|y: int| 0 <= y < b@.len() && b@[y] == a@[i as int];
            assert(a@[i as int] == b@[y]);
            return true;
        }
        i = i + 1;
    }
    false
}

/// Anchors stay indexed when only links go that are not index links.
proof fn lemma_anchor_links_kept(s0: StoreView, s1: StoreView)
    requires
        s0.anchors_indexed(),
        s1.entries == s0.entries,
        forall|x: Link| x.kind == LinkKind::AnchorChild && s0.links.contains(x) ==> s1.links.contains(x),
    ensures
        s1.anchors_indexed(),
{
    assert forall|i: int| 0 <= i < s1.entries.len() implies #[trigger] s1.anchor_placed(i) by {
        assert(s0.anchor_placed(i));
        if s1.entries[i] is Anchor {
            let parent = if s1.entries[i]->Anchor_0.anchor_text.len() > 0 {
                anchor_entry(s1.entries[i]->Anchor_0.anchor_type, Seq::empty())
            } else {
                root_anchor()
            };
            if s0.hangs_under(i, parent) {
                lemma_hangs_kept(s0, s1, i, parent);
            }
        }
    }
}

/// Statuses kept from one state to another and on to a third are kept from
/// the first to the third.
pub(crate) proof fn lemma_status_trans(s0: StoreView, s1: StoreView, s2: StoreView)
    requires
        s0.grows_to(s1),
        s0.keeps_status_of(s1),
        s1.keeps_status_of(s2),
    ensures
        s0.keeps_status_of(s2),
{
    assert forall|i: int| 0 <= i < s0.entries.len() implies #[trigger] s2.status[i] == s0.status[i] by {
        assert(s1.status[i] == s0.status[i]);
    }
}

/// What one state keeps of another, a later one keeps too.
pub(crate) proof fn lemma_grows_trans(s0: StoreView, s1: StoreView, s2: StoreView)
    requires
        s0.grows_to(s1),
        s1.grows_to(s2),
    ensures
        s0.grows_to(s2),
{
    assert forall|i: int| 0 <= i < s0.entries.len() implies #[trigger] s2.entries[i] == s0.entries[i]
        && s2.authors[i] == s0.authors[i] by {
        assert(s1.entries[i] == s0.entries[i]);
        assert(s2.entries[i] == s1.entries[i]);
    }
}

/// A write by the author of what it stores keeps every write authored.
proof fn lemma_stored_authored(s0: StoreView, s1: StoreView, author: Address, e: EntryView, r: Result<Address, StoreError>)
    requires
        s0.basic_wf(),
        s0.authored(),
        stored(s0, s1, author, e, r),
        e.key_hash() is Some ==> e.key_hash()->Some_0 == author,
    ensures
        s1.authored(),
{
    lemma_stored_shape(s0, s1, author, e, r);
    assert forall|k: int|
        0 <= k < s1.history.len() && (#[trigger] s1.history[k]).address.0 < s1.entries.len()
            && s1.entry(s1.history[k].address).key_hash() is Some implies s1.entry(
            s1.history[k].address,
        ).key_hash()->Some_0 == s1.history[k].author by {
        if k < s0.history.len() {
            assert(s1.history[k] == s0.history[k]);
            assert(s1.entries[s0.history[k].address.0 as int] == s0.entries[s0.history[k].address.0 as int]);
        } else {
            assert(s1.history[k] == Record { author, address: r->Ok_0 });
            assert(s1.entry(r->Ok_0) == e);
        }
    }
    assert forall|i: int|
        0 <= i < s1.entries.len() && (#[trigger] s1.entries[i]).key_hash() is Some
            implies s1.authors[i] == s1.entries[i].key_hash()->Some_0 by {
        if i < s0.entries.len() {
            assert(s1.entries[i] == s0.entries[i]);
        }
    }
}

/// Tag links stay anchored while entries keep their places and no link is
/// added.
pub(crate) proof fn lemma_tag_links_kept(s0: StoreView, s1: StoreView)
    requires
        s0.tag_links_anchored(),
        s0.entries.len() <= s1.entries.len(),
        forall|k: int| 0 <= k < s0.entries.len() ==> #[trigger] s1.entries[k] == s0.entries[k],
        forall|l: Link| s1.links.contains(l) ==> s0.links.contains(l),
    ensures
        s1.tag_links_anchored(),
{
    assert forall|l: Link|
        #[trigger] s1.links.contains(l) && (l.kind == LinkKind::OriginalTag || l.kind == LinkKind::CrosspostTag)
            implies (s1.has(l.base) && s1.entry(l.base) is Anchor) || (s1.has(l.target) && s1.entry(l.target) is Anchor) by {
        assert(s0.links.contains(l));
        if s0.has(l.base) {
            assert(s1.entries[l.base.0 as int] == s0.entries[l.base.0 as int]);
        }
        if s0.has(l.target) {
            assert(s1.entries[l.target.0 as int] == s0.entries[l.target.0 as int]);
        }
    }
}

} // verus!
