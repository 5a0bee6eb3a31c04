use vstd::prelude::*;
use crate::store::{
    Record, anchor_entry, committed, lemma_anchors_kept, root_anchor, Link, LinkKind, Store, StoreError,
    StoreView,
};
use crate::store::lemma_grows_trans;
use crate::types::{Address, Anchor, Entry};

verus! {

broadcast use vstd::seq_lib::lemma_seq_contains_after_push;

/// `s1` and `r` are what resolving anchor (`anchor_type`, `anchor_text`)
/// in `s0` gives: an existing anchor is returned with nothing written; a
/// missing one is created, and only anchors are added; the one failure is
/// a store with no room left.
pub open spec fn anchor_resolved(
    s0: StoreView,
    s1: StoreView,
    anchor_type: Seq<char>,
    anchor_text: Seq<char>,
    r: Result<Address, StoreError>,
) -> bool {
    let leaf = anchor_entry(anchor_type, anchor_text);
    &&& s0.holds(leaf) ==> s1 == s0 && r is Ok
    &&& r matches Ok(a) ==> s1.has(a) && s1.entry(a) == leaf
    &&& r is Err ==> r == Err::<Address, StoreError>(StoreError::Full)
    &&& s0.entries.len() + 3 < u64::MAX ==> r is Ok
    &&& s0.grows_to(s1)
    &&& forall|i: int| s0.entries.len() <= i < s1.entries.len() ==> s1.entries[i] is Anchor
    &&& s0.keeps_status_of(s1)
    &&& only_anchors_added(s0, s1)
    &&& s1.entries.len() <= s0.entries.len() + 3
}

/// What `s1` holds beyond `s0` is anchor-index work: its new links are
/// index links and its new writes are of anchors.
pub open spec fn only_anchors_added(s0: StoreView, s1: StoreView) -> bool {
    &&& forall|l: Link| #[trigger] s1.links.contains(l) ==> s0.links.contains(l) || l.kind == LinkKind::AnchorChild
    &&& forall|r: Record|
        #[trigger] s1.history.contains(r) ==> s0.history.contains(r) || (s1.has(r.address) && s1.entry(r.address) is Anchor)
}

pub(crate) proof fn lemma_only_anchors_trans(s0: StoreView, s1: StoreView, s2: StoreView)
    requires
        only_anchors_added(s0, s1),
        only_anchors_added(s1, s2),
        s1.grows_to(s2),
    ensures
        only_anchors_added(s0, s2),
{
    assert forall|r: Record| #[trigger] s2.history.contains(r) implies s0.history.contains(r) || (s2.has(r.address)
        && s2.entry(r.address) is Anchor) by {
        if s1.history.contains(r) && !s0.history.contains(r) {
            assert(s2.entries[r.address.0 as int] == s1.entries[r.address.0 as int]);
        }
    }
}

/// The leaves listed under type anchor `anchor_type`: none where that type
/// anchor is absent.
pub open spec fn listed_under(s: StoreView, anchor_type: Seq<char>, a: Address) -> bool {
    exists|j: int|
        0 <= j < s.entries.len() && s.entries[j] == anchor_entry(anchor_type, Seq::empty())
            && s.linked(Address(j as u64), a, LinkKind::AnchorChild)
}

impl Store {
    /// Commits an anchor, or finds it where it exists.
    fn commit_anchor(&mut self, caller: Address, anchor_type: &str, anchor_text: &str) -> (r: Result<Address, StoreError>)
        requires
            old(self)@.basic_wf(),
        ensures
            committed(old(self)@, final(self)@, caller, anchor_entry(anchor_type@, anchor_text@), r),
            final(self)@.basic_wf(),
            old(self)@.grows_to(final(self)@),
            final(self)@.links == old(self)@.links,
            old(self)@.authored() ==> final(self)@.authored(),
            final(self)@.status.subrange(0, old(self)@.entries.len() as int) == old(self)@.status,
            r is Err ==> r == Err::<Address, StoreError>(StoreError::Full) && final(self)@ == old(self)@,
            old(self)@.entries.len() + 1 < u64::MAX ==> r is Ok,
            r matches Ok(a) ==> final(self)@.has(a) && final(self)@.entry(a) == anchor_entry(anchor_type@, anchor_text@),
            final(self)@.entries.len() <= old(self)@.entries.len() + 1,
            only_anchors_added(old(self)@, final(self)@),
            forall|i: int| old(self)@.entries.len() <= i < final(self)@.entries.len()
                ==> final(self)@.entries[i] == anchor_entry(anchor_type@, anchor_text@),
    {
        let ghost s0 = self@;
        let r = self.commit(caller, Entry::Anchor(Anchor::new(anchor_type, anchor_text)));
        proof {
            let e = anchor_entry(anchor_type@, anchor_text@);
            if s0.holds(e) {
                assert(self@.status =~= s0.status);
            } else if s0.entries.len() + 1 < u64::MAX {
                assert(self@.status.subrange(0, s0.entries.len() as int) =~= s0.status);
                assert(self@.entries[s0.entries.len() as int] == e);
            } else {
                assert(self@.status =~= s0.status);
            }
            assert(self@.status.subrange(0, s0.entries.len() as int) =~= s0.status);
            if r is Ok {
                assert(self@.history[self@.history.len() - 1] == Record { author: caller, address: r->Ok_0 });
            }
        }
        r
    }

    /// The address of the anchor (`anchor_type`, `anchor_text`). Where it is
    /// missing it is created and hung under its type anchor, which is
    /// created under the root where missing too.
    pub fn anchor(&mut self, caller: Address, anchor_type: &str, anchor_text: &str) -> (r: Result<Address, StoreError>)
        requires
            old(self)@.wf(),
        ensures
            final(self)@.wf(),
            anchor_resolved(old(self)@, final(self)@, anchor_type@, anchor_text@, r),
    {
        let ghost s0 = self@;
        let leaf = Entry::Anchor(Anchor::new(anchor_type, anchor_text));
        match self.address_of(&leaf) {
            Some(a) => {
                return Ok(a);
            },
            None => {},
        }
        proof {
            reveal_strlit("");
        }
        let ghost ty = anchor_entry(anchor_type@, Seq::empty());
        assert(""@ =~= Seq::<char>::empty());
        let type_anchor = Entry::Anchor(Anchor::new(anchor_type, ""));
        let type_addr = match self.address_of(&type_anchor) {
            Some(t) => t,
            None => {
                let root = Entry::Anchor(Anchor::new("anchor_types", ""));
                let root_addr = match self.address_of(&root) {
                    Some(x) => x,
                    None => {
                        let ghost s = self@;
                        let x = match self.commit_anchor(caller, "anchor_types", "") {
                            Ok(x) => x,
                            Err(e) => {
                                return Err(e);
                            },
                        };
                        proof {
                            lemma_anchors_kept(s, self@);
                        }
                        x
                    },
                };
                let ghost s = self@;
                assert(s.entry(root_addr) == root_anchor());
                let t = match self.commit_anchor(caller, anchor_type, "") {
                    Ok(t) => t,
                    Err(e) => {
                        return Err(e);
                    },
                };
                let ghost s5 = self@;
                proof {
                    lemma_only_anchors_trans(s0, s, s5);
                }
                match self.add_link(caller, Link { base: root_addr, target: t, kind: LinkKind::AnchorChild }) {
                    Ok(()) => {},
                    Err(e) => {
                        return Err(e);
                    },
                }
                proof {
                    lemma_grows_trans(s, s5, self@);
                    assert(only_anchors_added(s5, self@));
                    lemma_only_anchors_trans(s0, s5, self@);
                    assert(self@.entries == s5.entries);
                    assert(self@.linked(root_addr, t, LinkKind::AnchorChild));
                    assert forall|i: int| s.entries.len() <= i < self@.entries.len() implies self@.anchor_placed(i) by {
                        assert(i == t.0);
                        assert(self@.entries[root_addr.0 as int] == root_anchor());
                        assert(self@.linked(Address(root_addr.0 as int as u64), Address(i as u64), LinkKind::AnchorChild));
                    }
                    lemma_anchors_kept(s, self@);
                }
                t
            },
        };
        assert(self@.has(type_addr) && self@.entry(type_addr) == ty);
        let ghost s = self@;
        let a = match self.commit_anchor(caller, anchor_type, anchor_text) {
            Ok(a) => a,
            Err(e) => {
                return Err(e);
            },
        };
        let ghost s5 = self@;
        proof {
            lemma_only_anchors_trans(s0, s, s5);
        }
        match self.add_link(caller, Link { base: type_addr, target: a, kind: LinkKind::AnchorChild }) {
            Ok(()) => {},
            Err(e) => {
                return Err(e);
            },
        }
        proof {
            assert(only_anchors_added(s5, self@));
            lemma_only_anchors_trans(s0, s5, self@);
            lemma_grows_trans(s, s5, self@);
            assert(self@.linked(type_addr, a, LinkKind::AnchorChild));
            assert(self@.entries[type_addr.0 as int] == ty);
            assert forall|i: int| s.entries.len() <= i < self@.entries.len() implies self@.anchor_placed(i) by {
                assert(i == a.0);
                if anchor_text@.len() > 0 {
                    assert(self@.linked(Address(type_addr.0 as u64), Address(i as u64), LinkKind::AnchorChild));
                } else {
                    assert(anchor_text@ =~= Seq::<char>::empty());
                    assert(s.holds(ty));
                }
            }
            lemma_anchors_kept(s, self@);
        }
        Ok(a)
    }

    /// Whether any entry lives at `a`; reads only.
    pub fn anchor_exists(&self, a: Address) -> (r: bool)
        requires
            self@.basic_wf(),
        ensures
            r == self@.has(a),
    {
        self.contains(a)
    }

    /// The leaves under the type anchor of `anchor_type`; reads only, and
    /// gives none where that type anchor is missing.
    pub fn anchors_of_type(&self, anchor_type: &str) -> (r: Vec<Address>)
        requires
            self@.basic_wf(),
        ensures
            forall|a: Address| r@.contains(a) <==> listed_under(self@, anchor_type@, a),
    {
        proof {
            reveal_strlit("");
        }
        assert(""@ =~= Seq::<char>::empty());
        let type_anchor = Entry::Anchor(Anchor::new(anchor_type, ""));
        match self.address_of(&type_anchor) {
            Some(t) => {
                let r = self.get_links(t, LinkKind::AnchorChild);
                assert forall|a: Address| listed_under(self@, anchor_type@, a) implies r@.contains(a) by {
                    let j = choose|j: int|
                        0 <= j < self@.entries.len() && self@.entries[j] == anchor_entry(
                            anchor_type@,
                            Seq::empty(),
                        ) && self@.linked(Address(j as u64), a, LinkKind::AnchorChild);
                    assert(j == t.0);
                }
                assert forall|a: Address| r@.contains(a) implies listed_under(self@, anchor_type@, a) by {
                    assert(self@.entries[t.0 as int] == anchor_entry(anchor_type@, Seq::empty()));
                    assert(Address(t.0 as int as u64) == t);
                }
                r
            },
            None => {
                let r: Vec<Address> = Vec::new();
                assert forall|a: Address| !listed_under(self@, anchor_type@, a) by {
                    if listed_under(self@, anchor_type@, a) {
                        let j = choose|j: int|
                            0 <= j < self@.entries.len() && self@.entries[j] == anchor_entry(
                                anchor_type@,
                                Seq::empty(),
                            ) && self@.linked(Address(j as u64), a, LinkKind::AnchorChild);
                        assert(self@.holds(type_anchor@));
                    }
                }
                r
            },
        }
    }
}

} // verus!
