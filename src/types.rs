use vstd::prelude::*;

verus! {

/// A topic that content is filed under.
pub type Tag = u64;

/// The address of an entry, or an agent's identity address.
#[derive(Clone, Copy, Debug, PartialEq, Eq, Structural, Hash)]
pub struct Address(pub u64);

/// A node of the anchor index: the root, a type anchor or a leaf anchor.
#[derive(Clone, Debug)]
pub struct Anchor {
    pub anchor_type: String,
    pub anchor_text: String,
}

pub struct AnchorView {
    pub anchor_type: Seq<char>,
    pub anchor_text: Seq<char>,
}

impl View for Anchor {
    type V = AnchorView;

    open spec fn view(&self) -> AnchorView {
        AnchorView { anchor_type: self.anchor_type@, anchor_text: self.anchor_text@ }
    }
}

impl Anchor {
    pub fn new(anchor_type: &str, anchor_text: &str) -> (r: Anchor)
        ensures
            r@ == (AnchorView { anchor_type: anchor_type@, anchor_text: anchor_text@ }),
    {
        Anchor { anchor_type: anchor_type.to_owned(), anchor_text: anchor_text.to_owned() }
    }

    pub fn duplicate(&self) -> (r: Anchor)
        ensures
            r == *self,
    {
        Anchor { anchor_type: self.anchor_type.clone(), anchor_text: self.anchor_text.clone() }
    }
}

/// A post, linked to and from its tag anchors, its comments and its votes.
#[derive(Clone, Debug)]
pub struct Post {
    pub title: String,
    /// Body of the post, in Markdown.
    pub content: String,
    /// Identity address of the author.
    pub key_hash: Address,
    /// Creation marker; only keeps equal posts apart, not a trusted clock.
    pub timestamp: u64,
}

pub struct PostView {
    pub title: Seq<char>,
    pub content: Seq<char>,
    pub key_hash: Address,
    pub timestamp: u64,
}

impl View for Post {
    type V = PostView;

    open spec fn view(&self) -> PostView {
        PostView {
            title: self.title@,
            content: self.content@,
            key_hash: self.key_hash,
            timestamp: self.timestamp,
        }
    }
}

impl Post {
    pub fn duplicate(&self) -> (r: Post)
        ensures
            r == *self,
    {
        Post {
            title: self.title.clone(),
            content: self.content.clone(),
            key_hash: self.key_hash,
            timestamp: self.timestamp,
        }
    }
}

/// A comment on a post or on another comment.
#[derive(Clone, Debug)]
pub struct Comment {
    pub content: String,
    /// Identity address of the author.
    pub key_hash: Address,
    /// Creation marker; only keeps equal comments apart.
    pub timestamp: u64,
}

pub struct CommentView {
    pub content: Seq<char>,
    pub key_hash: Address,
    pub timestamp: u64,
}

impl View for Comment {
    type V = CommentView;

    open spec fn view(&self) -> CommentView {
        CommentView { content: self.content@, key_hash: self.key_hash, timestamp: self.timestamp }
    }
}

impl Comment {
    pub fn duplicate(&self) -> (r: Comment)
        ensures
            r == *self,
    {
        Comment { content: self.content.clone(), key_hash: self.key_hash, timestamp: self.timestamp }
    }
}

/// Millionths in one whole.
pub const FRACTION_SCALE: i64 = 1_000_000;

/// A stance from -1 to 1, kept in millionths: `FRACTION_SCALE` is 1.
#[derive(Clone, Copy, Debug, PartialEq, Eq, Structural)]
pub struct Fraction {
    pub millionths: i64,
}

impl Fraction {
    pub open spec fn in_range(self) -> bool {
        -FRACTION_SCALE <= self.millionths <= FRACTION_SCALE
    }

    pub fn is_in_range(&self) -> (r: bool)
        ensures
            r == self.in_range(),
    {
        -FRACTION_SCALE <= self.millionths && self.millionths <= FRACTION_SCALE
    }
}

/// A signed opinion of an author about a target, in terms of some tags.
#[derive(Clone, Debug)]
pub struct Vote {
    /// Positive: "I like this"; negative: "I don't".
    pub fraction: Fraction,
    /// The tags this vote is cast in terms of.
    pub in_terms_of: Vec<Tag>,
    /// What is voted on.
    pub target_hash: Address,
    /// Identity address of the voter.
    pub key_hash: Address,
    /// Creation marker; only keeps equal votes apart.
    pub timestamp: u64,
}

pub struct VoteView {
    pub fraction: Fraction,
    pub in_terms_of: Seq<Tag>,
    pub target_hash: Address,
    pub key_hash: Address,
    pub timestamp: u64,
}

impl View for Vote {
    type V = VoteView;

    open spec fn view(&self) -> VoteView {
        VoteView {
            fraction: self.fraction,
            in_terms_of: self.in_terms_of@,
            target_hash: self.target_hash,
            key_hash: self.key_hash,
            timestamp: self.timestamp,
        }
    }
}

/// A copy of a list of tags.
pub fn copy_tags(tags: &Vec<Tag>) -> (r: Vec<Tag>)
    ensures
        r@ == tags@,
{
    let mut r: Vec<Tag> = Vec::new();
    let mut i: usize = 0;
    while i < tags.len()
        invariant
            i <= tags.len(),
            r@ == tags@.subrange(0, i as int),
        decreases tags.len() - i,
    {
        r.push(tags[i]);
        i = i + 1;
    }
    assert(r@ =~= tags@);
    r
}

/// Whether two lists of tags are equal.
pub fn same_tags(a: &Vec<Tag>, b: &Vec<Tag>) -> (r: bool)
    ensures
        r == (a@ == b@),
{
    if a.len() != b.len() {
        return false;
    }
    let mut i: usize = 0;
    while i < a.len()
        invariant
            i <= a.len() == b.len(),
            a@.subrange(0, i as int) == b@.subrange(0, i as int),
        decreases a.len() - i,
    {
        if a[i] != b[i] {
            assert(a@[i as int] != b@[i as int]);
            return false;
        }
        assert(a@.subrange(0, i + 1) =~= a@.subrange(0, i as int).push(a@[i as int]));
        assert(b@.subrange(0, i + 1) =~= b@.subrange(0, i as int).push(b@[i as int]));
        i = i + 1;
    }
    assert(a@ =~= a@.subrange(0, i as int));
    assert(b@ =~= b@.subrange(0, i as int));
    true
}

impl Vote {
    pub fn duplicate(&self) -> (r: Vote)
        ensures
            r@ == self@,
    {
        Vote {
            fraction: self.fraction,
            in_terms_of: copy_tags(&self.in_terms_of),
            target_hash: self.target_hash,
            key_hash: self.key_hash,
            timestamp: self.timestamp,
        }
    }
}

/// What the store holds at an address.
#[derive(Clone, Debug)]
pub enum Entry {
    Anchor(Anchor),
    Post(Post),
    Comment(Comment),
    Vote(Vote),
}

pub enum EntryView {
    Anchor(AnchorView),
    Post(PostView),
    Comment(CommentView),
    Vote(VoteView),
}

impl View for Entry {
    type V = EntryView;

    open spec fn view(&self) -> EntryView {
        match self {
            Entry::Anchor(a) => EntryView::Anchor(a@),
            Entry::Post(p) => EntryView::Post(p@),
            Entry::Comment(c) => EntryView::Comment(c@),
            Entry::Vote(v) => EntryView::Vote(v@),
        }
    }
}

impl EntryView {
    /// The author an entry declares; anchors declare none.
    pub open spec fn key_hash(self) -> Option<Address> {
        match self {
            EntryView::Anchor(_) => None,
            EntryView::Post(p) => Some(p.key_hash),
            EntryView::Comment(c) => Some(c.key_hash),
            EntryView::Vote(v) => Some(v.key_hash),
        }
    }
}

impl Entry {
    pub fn key_hash(&self) -> (r: Option<Address>)
        ensures
            r == self@.key_hash(),
    {
        match self {
            Entry::Anchor(_) => None,
            Entry::Post(p) => Some(p.key_hash),
            Entry::Comment(c) => Some(c.key_hash),
            Entry::Vote(v) => Some(v.key_hash),
        }
    }

    /// Whether two entries have the same content, and so the same address.
    pub fn same_content(&self, other: &Entry) -> (r: bool)
        ensures
            r == (self@ == other@),
    {
        match (self, other) {
            (Entry::Anchor(a), Entry::Anchor(b)) => {
                a.anchor_type == b.anchor_type && a.anchor_text == b.anchor_text
            },
            (Entry::Post(a), Entry::Post(b)) => {
                a.title == b.title && a.content == b.content && a.key_hash == b.key_hash
                    && a.timestamp == b.timestamp
            },
            (Entry::Comment(a), Entry::Comment(b)) => {
                a.content == b.content && a.key_hash == b.key_hash && a.timestamp == b.timestamp
            },
            (Entry::Vote(a), Entry::Vote(b)) => {
                a.fraction == b.fraction && same_tags(&a.in_terms_of, &b.in_terms_of)
                    && a.target_hash == b.target_hash && a.key_hash == b.key_hash
                    && a.timestamp == b.timestamp
            },
            _ => false,
        }
    }

    pub fn duplicate(&self) -> (r: Entry)
        ensures
            r@ == self@,
    {
        match self {
            Entry::Anchor(a) => Entry::Anchor(a.duplicate()),
            Entry::Post(p) => Entry::Post(p.duplicate()),
            Entry::Comment(c) => Entry::Comment(c.duplicate()),
            Entry::Vote(v) => Entry::Vote(v.duplicate()),
        }
    }
}

} // verus!
