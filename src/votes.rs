use vstd::prelude::*;
use crate::store::{
    committed, lemma_grows_trans, shares_tag, tags_meet, updated, Link, LinkKind, Record,
    Store, StoreError, StoreView,
};
use crate::types::{copy_tags, Address, Entry, EntryView, Fraction, Tag, Vote, VoteView};
use crate::validation::{create_verdict, Rejection};

verus! {

broadcast use vstd::seq_lib::lemma_seq_contains_after_push;

/// The entry at `a` is a live vote on `target` that shares a tag with
/// `tags`.
pub open spec fn vote_matches(s: StoreView, a: Address, target: Address, tags: Seq<Tag>) -> bool {
    &&& s.is_live(a)
    &&& s.entry(a) is Vote
    &&& s.entry(a)->Vote_0.target_hash == target
    &&& shares_tag(s.entry(a)->Vote_0.in_terms_of, tags)
}

/// The write at `k` is `caller`'s, of such a vote.
pub open spec fn my_vote_at(s: StoreView, caller: Address, target: Address, tags: Seq<Tag>, k: int) -> bool {
    0 <= k < s.history.len() && s.history[k].author == caller && vote_matches(
        s,
        s.history[k].address,
        target,
        tags,
    )
}

/// The first of the first `n` writes that is such a vote of `caller`.
pub open spec fn first_vote_in(s: StoreView, caller: Address, target: Address, tags: Seq<Tag>, n: int) -> Option<Address>
    decreases n,
{
    if n <= 0 {
        None
    } else {
        match first_vote_in(s, caller, target, tags, n - 1) {
            Some(a) => Some(a),
            None => if my_vote_at(s, caller, target, tags, n - 1) {
                Some(s.history[n - 1].address)
            } else {
                None
            },
        }
    }
}

/// `caller`'s active vote on `target` in terms of one of `tags`: the first
/// in their history.
pub open spec fn my_vote(s: StoreView, caller: Address, target: Address, tags: Seq<Tag>) -> Option<Address> {
    first_vote_in(s, caller, target, tags, s.history.len() as int)
}

/// `first_vote_in` finds nothing just where no write matches.
pub proof fn lemma_first_vote_none(s: StoreView, caller: Address, target: Address, tags: Seq<Tag>, n: int)
    requires
        0 <= n <= s.history.len(),
    ensures
        first_vote_in(s, caller, target, tags, n) is None <==> forall|k: int|
            0 <= k < n ==> !my_vote_at(s, caller, target, tags, k),
        first_vote_in(s, caller, target, tags, n) matches Some(a) ==> exists|k: int|
            0 <= k < n && my_vote_at(s, caller, target, tags, k) && s.history[k].address == a,
    decreases n,
{
    if n > 0 {
        lemma_first_vote_none(s, caller, target, tags, n - 1);
    }
}

/// `caller`'s only active vote on `target` sharing a tag with `tags` is
/// the one at `a`.
pub open spec fn sole_active_vote(s: StoreView, caller: Address, target: Address, tags: Seq<Tag>, a: Address) -> bool {
    forall|k: int| #[trigger] my_vote_at(s, caller, target, tags, k) ==> s.history[k].address == a
}

/// `s1` and `r` are what `caller`'s vote `v` in `s0` gives. It replaces
/// the caller's first active vote on the same target in terms of a shared
/// tag, unless another active vote of theirs there also shares a tag with
/// it (refused), or the vote is unchanged (kept as it is); with none, it is
/// committed and linked from its target.
pub open spec fn vote_cast(s0: StoreView, s1: StoreView, caller: Address, v: VoteView, r: Result<Address, StoreError>) -> bool {
    match my_vote(s0, caller, v.target_hash, v.in_terms_of) {
        Some(prior) => if v.fraction.in_range() && s0.conflicts_with(caller, v.target_hash, prior, v.in_terms_of) {
            r == Err::<Address, StoreError>(StoreError::Rejected(Rejection::AlreadyVoted)) && s1 == s0
        } else if v.fraction.in_range() && s0.entry(prior) == EntryView::Vote(v) {
            r == Ok::<Address, StoreError>(prior) && s1 == s0
        } else {
            updated(s0, s1, caller, prior, EntryView::Vote(v), r)
        },
        None => {
            &&& create_verdict(EntryView::Vote(v), seq![caller]) matches Err(why) ==> r
                == Err::<Address, StoreError>(StoreError::Rejected(why)) && s1 == s0
            &&& r matches Ok(a) ==> s1.has(a) && s1.entry(a) == EntryView::Vote(v) && s1.linked(
                v.target_hash,
                a,
                LinkKind::Vote,
            )
            &&& r matches Ok(a) ==> s1.history == s0.history.push(Record { author: caller, address: a })
            &&& r matches Ok(a) ==> (!s0.holds(EntryView::Vote(v)) ==> s1.is_live(a))
            &&& s0.grows_to(s1)
            &&& forall|i: int| 0 <= i < s0.entries.len() ==> s1.status[i] == s0.status[i]
            &&& forall|i: int| s0.entries.len() <= i < s1.entries.len() ==> s1.entries[i] == EntryView::Vote(v)
            &&& create_verdict(EntryView::Vote(v), seq![caller]) is Ok && s0.entries.len() + 1 < u64::MAX
                ==> r is Ok
        },
    }
}

impl Store {
    /// The caller's active vote on `target` in terms of one of `tags`.
    pub fn find_my_vote(&self, caller: Address, target: Address, tags: &Vec<Tag>) -> (r: Option<Address>)
        requires
            self@.basic_wf(),
        ensures
            r == my_vote(self@, caller, target, tags@),
    {
        let history = self.history();
        let mut k: usize = 0;
        while k < history.len()
            invariant
                k <= history.len(),
                history@ == self@.history,
                self@.basic_wf(),
                first_vote_in(self@, caller, target, tags@, k as int) is None,
            decreases history.len() - k,
        {
            let rec = history[k];
            if rec.author == caller && self.is_live(rec.address) {
                match self.get(rec.address) {
                    Some(Entry::Vote(v)) => {
                        if v.target_hash == target && tags_meet(&v.in_terms_of, tags) {
                            proof {
                                lemma_first_vote_later(self@, caller, target, tags@, k + 1, history@.len() as int);
                            }
                            return Some(rec.address);
                        }
                    },
                    _ => {},
                }
            }
            k = k + 1;
        }
        None
    }

    /// The caller's active vote on `target` in terms of one of `tags`, if
    /// any.
    pub fn get_my_vote(&self, caller: Address, target: Address, tags: &Vec<Tag>) -> (r: Option<Vote>)
        requires
            self@.basic_wf(),
        ensures
            my_vote(self@, caller, target, tags@) is None ==> r is None,
            my_vote(self@, caller, target, tags@) matches Some(a) ==> (r matches Some(v) && EntryView::Vote(v@)
                == self@.entry(a)),
    {
        match self.find_my_vote(caller, target, tags) {
            None => None,
            Some(a) => {
                proof {
                    lemma_first_vote_none(self@, caller, target, tags@, self@.history.len() as int);
                }
                match self.get(a) {
                    Some(Entry::Vote(v)) => Some(v.duplicate()),
                    _ => None,
                }
            },
        }
    }

    /// Casts `caller`'s vote on `target`: it replaces the caller's active
    /// vote there in terms of a shared tag, or else is committed and linked
    /// from `target`.
    pub fn vote(
        &mut self,
        caller: Address,
        utc_unix_time: u64,
        fraction: Fraction,
        in_terms_of: &Vec<Tag>,
        target: Address,
    ) -> (r: Result<Address, StoreError>)
        requires
            old(self)@.wf(),
        ensures
            final(self)@.wf(),
            vote_cast(
                old(self)@,
                final(self)@,
                caller,
                VoteView { fraction, in_terms_of: in_terms_of@, target_hash: target, key_hash: caller, timestamp: utc_unix_time },
                r,
            ),
            !fraction.in_range() ==> r == Err::<Address, StoreError>(
                StoreError::Rejected(Rejection::FractionOutOfRange),
            ) && final(self)@ == old(self)@,
            r matches Ok(a) ==> sole_active_vote(final(self)@, caller, target, in_terms_of@, a),
    {
        let ghost s0 = self@;
        let v = Vote {
            fraction,
            in_terms_of: copy_tags(in_terms_of),
            target_hash: target,
            key_hash: caller,
            timestamp: utc_unix_time,
        };
        let ghost vv = v@;
        assert(seq![caller][0] == caller);
        assert(crate::validation::signed_by(seq![caller], caller));
        match self.find_my_vote(caller, target, in_terms_of) {
            Some(prior) => {
                proof {
                    lemma_first_vote_none(s0, caller, target, in_terms_of@, s0.history.len() as int);
                }
                if fraction.is_in_range() && self.has_conflicting_vote(caller, target, prior, in_terms_of) {
                    return Err(StoreError::Rejected(Rejection::AlreadyVoted));
                }
                let entry = Entry::Vote(v);
                let unchanged = match self.get(prior) {
                    Some(e) => e.same_content(&entry),
                    None => false,
                };
                if fraction.is_in_range() && unchanged {
                    proof {
                        assert forall|k: int| #[trigger] my_vote_at(s0, caller, target, in_terms_of@, k)
                            implies s0.history[k].address == prior by {
                            if s0.history[k].address != prior {
                                assert(s0.other_vote_conflicts(s0.history[k].address, target, prior, in_terms_of@));
                            }
                        }
                    }
                    return Ok(prior);
                }
                let r = self.update(caller, prior, entry);
                proof {
                    if r is Ok {
                        let a = r->Ok_0;
                        let s1 = self@;
                        assert(s1.history == s0.history.push(Record { author: caller, address: a }));
                        assert forall|k: int| #[trigger] my_vote_at(s1, caller, target, in_terms_of@, k)
                            implies s1.history[k].address == a by {
                            if k < s0.history.len() {
                                let x = s0.history[k].address;
                                assert(s1.history[k] == s0.history[k]);
                                assert(s0.has(x));
                                assert(s1.entries[x.0 as int] == s0.entries[x.0 as int]);
                                if x != prior {
                                    assert(s1.status[x.0 as int] == s0.status[x.0 as int]);
                                    assert(s0.other_vote_conflicts(x, target, prior, in_terms_of@));
                                }
                            }
                        }
                    }
                }
                r
            },
            None => {
                let a = match self.commit(caller, Entry::Vote(v)) {
                    Ok(a) => a,
                    Err(e) => {
                        return Err(e);
                    },
                };
                let ghost s1 = self@;
                proof {
                    lemma_first_vote_none(s0, caller, target, in_terms_of@, s0.history.len() as int);
                    assert(s1.entry(a) == EntryView::Vote(vv));
                    assert forall|k: int|
                        #![trigger s1.history[k]]
                        0 <= k < s1.history.len() && s1.history[k].author == caller
                            implies !s1.other_vote_conflicts(s1.history[k].address, target, a, vv.in_terms_of) by {
                        if k < s0.history.len() {
                            assert(s1.history[k] == s0.history[k]);
                            assert(!my_vote_at(s0, caller, target, in_terms_of@, k));
                            let x = s0.history[k].address;
                            assert(s1.entries[x.0 as int] == s0.entries[x.0 as int]);
                            assert(s1.status[x.0 as int] == s0.status[x.0 as int]);
                        }
                    }
                    assert(!s1.conflicting_vote(caller, target, a));
                }
                match self.add_link(caller, Link { base: target, target: a, kind: LinkKind::Vote }) {
                    Ok(()) => {},
                    Err(e) => {
                        return Err(e);
                    },
                }
                proof {
                    lemma_grows_trans(s0, s1, self@);
                    let s2 = self@;
                    assert forall|k: int| #[trigger] my_vote_at(s2, caller, target, in_terms_of@, k)
                        implies s2.history[k].address == a by {
                        if k < s0.history.len() {
                            let x = s0.history[k].address;
                            assert(s2.history[k] == s0.history[k]);
                            assert(s0.has(x));
                            assert(s2.entries[x.0 as int] == s0.entries[x.0 as int]);
                            assert(s2.status[x.0 as int] == s0.status[x.0 as int]);
                            assert(!my_vote_at(s0, caller, target, in_terms_of@, k));
                        }
                    }
                }
                Ok(a)
            },
        }
    }

    /// The votes linked from `address`.
    pub fn votes_of(&self, address: Address) -> (r: Vec<Vote>)
        requires
            self@.basic_wf(),
        ensures
            forall|i: int| 0 <= i < r@.len() ==> vote_linked_from(self@, address, #[trigger] r@[i]@),
            forall|a: Address|
                #![trigger self@.linked(address, a, LinkKind::Vote)]
                self@.linked(address, a, LinkKind::Vote) && self@.has(a) && self@.entry(a) is Vote
                ==> exists|i: int| 0 <= i < r@.len() && self@.entry(a) == EntryView::Vote(#[trigger] r@[i]@),
    {
        let targets = self.get_links(address, LinkKind::Vote);
        let mut r: Vec<Vote> = Vec::new();
        let mut j: usize = 0;
        while j < targets.len()
            invariant
                j <= targets.len(),
                self@.basic_wf(),
                forall|a: Address| targets@.contains(a) <==> self@.linked(address, a, LinkKind::Vote),
                forall|i: int| 0 <= i < r@.len() ==> vote_linked_from(self@, address, #[trigger] r@[i]@),
                forall|k: int| 0 <= k < j && self@.has(#[trigger] targets@[k]) && self@.entry(targets@[k]) is Vote
                    ==> exists|i: int| 0 <= i < r@.len() && self@.entry(targets@[k]) == EntryView::Vote(#[trigger] r@[i]@),
            decreases targets.len() - j,
        {
            let x = targets[j];
            assert(targets@.contains(x));
            let ghost r0 = r@;
            match self.get(x) {
                Some(Entry::Vote(v)) => {
                    r.push(v.duplicate());
                    assert(self@.entry(x) == EntryView::Vote(r@[r@.len() - 1]@));
                    assert(vote_linked_from(self@, address, r@[r@.len() - 1]@));
                },
                _ => {},
            }
            assert forall|i: int| 0 <= i < r@.len() implies vote_linked_from(self@, address, #[trigger] r@[i]@) by {
                if i < r0.len() {
                    assert(r@[i] == r0[i]);
                }
            }
            assert forall|k: int| 0 <= k < j + 1 && self@.has(#[trigger] targets@[k]) && self@.entry(targets@[k]) is Vote
                implies exists|i: int| 0 <= i < r@.len() && self@.entry(targets@[k]) == EntryView::Vote(#[trigger] r@[i]@) by {
                if k < j {
                    let i = choose|i: int| 0 <= i < r0.len() && self@.entry(targets@[k]) == EntryView::Vote(#[trigger] r0[i]@);
                    assert(r@[i] == r0[i]);
                } else {
                    assert(self@.entry(targets@[k]) == EntryView::Vote(r@[r@.len() - 1]@));
                }
            }
            j = j + 1;
        }
        assert forall|a: Address|
            #![trigger self@.linked(address, a, LinkKind::Vote)]
            self@.linked(address, a, LinkKind::Vote) && self@.has(a) && self@.entry(a) is Vote
            implies exists|i: int| 0 <= i < r@.len() && self@.entry(a) == EntryView::Vote(#[trigger] r@[i]@) by {
            assert(targets@.contains(a));
            let k = choose|k: int| 0 <= k < targets@.len() && targets@[k] == a;
            assert(self@.has(targets@[k]));
        }
        r
    }
}

/// Some link of kind vote from `address` reaches an entry that is vote `v`.
pub open spec fn vote_linked_from(s: StoreView, address: Address, v: VoteView) -> bool {
    exists|a: Address| s.linked(address, a, LinkKind::Vote) && s.has(a) && s.entry(a) == EntryView::Vote(v)
}

/// Once found among the first `n` writes, the same vote is found among more.
proof fn lemma_first_vote_later(s: StoreView, caller: Address, target: Address, tags: Seq<Tag>, n: int, m: int)
    requires
        0 < n <= m,
        first_vote_in(s, caller, target, tags, n - 1) is None,
        my_vote_at(s, caller, target, tags, n - 1),
    ensures
        first_vote_in(s, caller, target, tags, m) == Some(s.history[n - 1].address),
    decreases m - n,
{
    if m > n {
        lemma_first_vote_later(s, caller, target, tags, n, m - 1);
    }
}

} // verus!
