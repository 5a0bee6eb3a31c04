use vstd::prelude::*;
use crate::types::{Address, Tag};

verus! {

broadcast use vstd::seq_lib::lemma_seq_contains_after_push;

/// A boolean query over tags.
#[derive(Debug)]
pub enum Search {
    /// Items that every sub-query finds.
    And(Vec<Search>),
    /// Items that some sub-query finds.
    Or(Vec<Search>),
    /// Items that exactly one sub-query finds.
    Xor(Vec<Search>),
    /// Items that the first sub-query finds and none of the others.
    Not(Vec<Search>),
    /// Items filed under this tag.
    Exactly(Tag),
}

/// One reason an item is found: the item's address and a tag it matched.
pub type Hit = (Address, Tag);

/// The hits listed in `s`.
pub open spec fn hit_set(s: Seq<Hit>) -> Set<Hit> {
    Set::new(|h: Hit| s.contains(h))
}

/// `a` is found at all in `r`.
pub open spec fn in_domain(r: Set<Hit>, a: Address) -> bool {
    exists|t: Tag| r.contains((a, t))
}

pub open spec fn union_of(rs: Seq<Set<Hit>>) -> Set<Hit> {
    Set::new(|h: Hit| exists|i: int| 0 <= i < rs.len() && #[trigger] rs[i].contains(h))
}

/// Hits of items that every result holds.
pub open spec fn all_of(rs: Seq<Set<Hit>>) -> Set<Hit> {
    Set::new(
        |h: Hit|
            union_of(rs).contains(h) && forall|i: int|
                0 <= i < rs.len() ==> in_domain(#[trigger] rs[i], h.0),
    )
}

/// In how many of the results `a` is found.
pub open spec fn domain_count(rs: Seq<Set<Hit>>, a: Address) -> nat
    decreases rs.len(),
{
    if rs.len() == 0 {
        0
    } else {
        domain_count(rs.subrange(0, rs.len() - 1), a) + if in_domain(rs[rs.len() - 1], a) {
            1nat
        } else {
            0nat
        }
    }
}

/// Hits of items that exactly one result holds.
pub open spec fn one_of(rs: Seq<Set<Hit>>) -> Set<Hit> {
    Set::new(|h: Hit| union_of(rs).contains(h) && domain_count(rs, h.0) == 1)
}

/// Hits of the first result whose items no other result holds.
pub open spec fn first_but_rest(rs: Seq<Set<Hit>>) -> Set<Hit> {
    if rs.len() == 0 {
        Set::empty()
    } else {
        Set::new(
            |h: Hit|
                rs[0].contains(h) && forall|i: int|
                    1 <= i < rs.len() ==> !in_domain(#[trigger] rs[i], h.0),
        )
    }
}

/// The (tag, item) filings listed in `s`.
pub open spec fn placement_set(s: Seq<(Tag, Address)>) -> Set<(Tag, Address)> {
    Set::new(|p: (Tag, Address)| s.contains(p))
}

/// What a query finds, where `placements` holds each (tag, item) filing.
pub open spec fn hits(q: Search, placements: Set<(Tag, Address)>) -> Set<Hit>
    decreases q,
{
    match q {
        Search::Exactly(t) => Set::new(|h: Hit| h.1 == t && placements.contains((t, h.0))),
        Search::Or(args) => union_of(hits_each(args@, placements)),
        Search::And(args) => all_of(hits_each(args@, placements)),
        Search::Xor(args) => one_of(hits_each(args@, placements)),
        Search::Not(args) => first_but_rest(hits_each(args@, placements)),
    }
}

/// What each query of `qs` finds.
pub open spec fn hits_each(qs: Seq<Search>, placements: Set<(Tag, Address)>) -> Seq<Set<Hit>>
    decreases qs,
{
    if qs.len() == 0 {
        seq![]
    } else {
        hits_each(qs.subrange(0, qs.len() - 1), placements).push(
            hits(qs[qs.len() - 1], placements),
        )
    }
}

proof fn lemma_hits_each(qs: Seq<Search>, placements: Set<(Tag, Address)>)
    ensures
        hits_each(qs, placements).len() == qs.len(),
        forall|j: int|
            0 <= j < qs.len() ==> #[trigger] hits_each(qs, placements)[j] == hits(
                qs[j],
                placements,
            ),
    decreases qs.len(),
{
    if qs.len() > 0 {
        let init = qs.subrange(0, qs.len() - 1);
        lemma_hits_each(init, placements);
        assert forall|j: int| 0 <= j < qs.len() - 1 implies init[j] == qs[j] by {}
    }
}

/// Whether `r` finds `a` at all.
fn finds(r: &Vec<Hit>, a: Address) -> (b: bool)
    ensures
        b == in_domain(hit_set(r@), a),
{
    let mut i: usize = 0;
    while i < r.len()
        invariant
            i <= r.len(),
            forall|j: int| 0 <= j < i ==> r@[j].0 != a,
        decreases r.len() - i,
    {
        if r[i].0 == a {
            assert(hit_set(r@).contains((a, r@[i as int].1)));
            return true;
        }
        i = i + 1;
    }
    assert forall|t: Tag| !hit_set(r@).contains((a, t)) by {
        if r@.contains((a, t)) {
            let j = choose|j: int| 0 <= j < r@.len() && r@[j] == (a, t);
        }
    }
    false
}

fn exactly(t: Tag, placements: &Vec<(Tag, Address)>) -> (r: Vec<Hit>)
    ensures
        hit_set(r@) == hits(Search::Exactly(t), placement_set(placements@)),
{
    let mut r: Vec<Hit> = Vec::new();
    let mut i: usize = 0;
    while i < placements.len()
        invariant
            i <= placements.len(),
            forall|h: Hit|
                r@.contains(h) <==> (h.1 == t && placements@.subrange(0, i as int).contains(
                    (t, h.0),
                )),
        decreases placements.len() - i,
    {
        let p = placements[i];
        let ghost before = placements@.subrange(0, i as int);
        let ghost after = placements@.subrange(0, i + 1);
        assert(after =~= before.push(p));
        if p.0 == t {
            r.push((p.1, t));
        }
        i = i + 1;
    }
    assert(placements@.subrange(0, i as int) =~= placements@);
    assert(hit_set(r@) =~= hits(Search::Exactly(t), placement_set(placements@)));
    r
}


/// `rs[j]` lists the hits `sets[j]`, for every `j`.
spec fn lists_are(rs: Seq<Vec<Hit>>, sets: Seq<Set<Hit>>) -> bool {
    rs.len() == sets.len() && forall|j: int| 0 <= j < rs.len() ==> hit_set(#[trigger] rs[j]@) == sets[j]
}

fn union_all(rs: &Vec<Vec<Hit>>, Ghost(sets): Ghost<Seq<Set<Hit>>>) -> (r: Vec<Hit>)
    requires
        lists_are(rs@, sets),
    ensures
        hit_set(r@) == union_of(sets),
{
    let mut r: Vec<Hit> = Vec::new();
    let mut i: usize = 0;
    while i < rs.len()
        invariant
            i <= rs.len(),
            lists_are(rs@, sets),
            forall|h: Hit| r@.contains(h) <==> exists|j: int| 0 <= j < i && #[trigger] sets[j].contains(h),
        decreases rs.len() - i,
    {
        let v = &rs[i];
        assert(hit_set(rs@[i as int]@) == sets[i as int]);
        let mut k: usize = 0;
        while k < v.len()
            invariant
                i < rs.len(),
                v == rs@[i as int],
                k <= v.len(),
                forall|h: Hit|
                    r@.contains(h) <==> (exists|j: int| 0 <= j < i && #[trigger] sets[j].contains(h))
                        || v@.subrange(0, k as int).contains(h),
            decreases v.len() - k,
        {
            assert(v@.subrange(0, k + 1) =~= v@.subrange(0, k as int).push(v@[k as int]));
            r.push(v[k]);
            k = k + 1;
        }
        assert(v@.subrange(0, k as int) =~= v@);
        assert forall|h: Hit|
            r@.contains(h) <==> exists|j: int| 0 <= j < i + 1 && #[trigger] sets[j].contains(h) by {
            if v@.contains(h) {
                assert(hit_set(v@).contains(h));
            }
            if sets[i as int].contains(h) {
                assert(hit_set(v@).contains(h));
            }
        }
        i = i + 1;
    }
    assert(hit_set(r@) =~= union_of(sets));
    r
}

/// How the sub-results of a query decide which hits stay.
enum Combine {
    All,
    One,
    NoneAfterFirst,
}

spec fn keeps(mode: Combine, sets: Seq<Set<Hit>>, a: Address) -> bool {
    match mode {
        Combine::All => forall|j: int| 0 <= j < sets.len() ==> in_domain(#[trigger] sets[j], a),
        Combine::One => domain_count(sets, a) == 1,
        Combine::NoneAfterFirst => forall|j: int|
            1 <= j < sets.len() ==> !in_domain(#[trigger] sets[j], a),
    }
}

fn count_finding(rs: &Vec<Vec<Hit>>, Ghost(sets): Ghost<Seq<Set<Hit>>>, a: Address) -> (n: usize)
    requires
        lists_are(rs@, sets),
    ensures
        n == domain_count(sets, a),
{
    let mut n: usize = 0;
    let mut i: usize = 0;
    while i < rs.len()
        invariant
            i <= rs.len(),
            lists_are(rs@, sets),
            n == domain_count(sets.subrange(0, i as int), a),
            n <= i,
        decreases rs.len() - i,
    {
        let ghost next = sets.subrange(0, i + 1);
        assert(next.subrange(0, i as int) =~= sets.subrange(0, i as int));
        assert(next[i as int] == sets[i as int]);
        assert(hit_set(rs@[i as int]@) == sets[i as int]);
        if finds(&rs[i], a) {
            n = n + 1;
        }
        i = i + 1;
    }
    assert(sets.subrange(0, i as int) =~= sets);
    n
}

fn keeps_exec(mode: &Combine, rs: &Vec<Vec<Hit>>, Ghost(sets): Ghost<Seq<Set<Hit>>>, a: Address) -> (b: bool)
    requires
        lists_are(rs@, sets),
    ensures
        b == keeps(*mode, sets, a),
{
    match mode {
        Combine::One => count_finding(rs, Ghost(sets), a) == 1,
        Combine::All => {
            let mut i: usize = 0;
            while i < rs.len()
                invariant
                    i <= rs.len(),
                    *mode == Combine::All,
                    lists_are(rs@, sets),
                    forall|j: int| 0 <= j < i ==> in_domain(#[trigger] sets[j], a),
                decreases rs.len() - i,
            {
                assert(hit_set(rs@[i as int]@) == sets[i as int]);
                if !finds(&rs[i], a) {
                    assert(!in_domain(sets[i as int], a));
                    return false;
                }
                i = i + 1;
            }
            true
        },
        Combine::NoneAfterFirst => {
            let mut i: usize = 1;
            while i < rs.len()
                invariant
                    1 <= i,
                    *mode == Combine::NoneAfterFirst,
                    lists_are(rs@, sets),
                    forall|j: int| 1 <= j < i && j < sets.len() ==> !in_domain(#[trigger] sets[j], a),
                decreases rs.len() - i,
            {
                assert(hit_set(rs@[i as int]@) == sets[i as int]);
                if finds(&rs[i], a) {
                    assert(in_domain(sets[i as int], a));
                    return false;
                }
                i = i + 1;
            }
            true
        },
    }
}

fn select(u: &Vec<Hit>, mode: &Combine, rs: &Vec<Vec<Hit>>, Ghost(sets): Ghost<Seq<Set<Hit>>>) -> (r: Vec<Hit>)
    requires
        lists_are(rs@, sets),
    ensures
        forall|h: Hit| r@.contains(h) <==> (u@.contains(h) && keeps(*mode, sets, h.0)),
{
    let mut r: Vec<Hit> = Vec::new();
    let mut i: usize = 0;
    while i < u.len()
        invariant
            i <= u.len(),
            lists_are(rs@, sets),
            forall|h: Hit|
                r@.contains(h) <==> (u@.subrange(0, i as int).contains(h) && keeps(*mode, sets, h.0)),
        decreases u.len() - i,
    {
        assert(u@.subrange(0, i + 1) =~= u@.subrange(0, i as int).push(u@[i as int]));
        let h = u[i];
        if keeps_exec(mode, rs, Ghost(sets), h.0) {
            r.push(h);
        }
        i = i + 1;
    }
    assert(u@.subrange(0, i as int) =~= u@);
    r
}


fn hits_of(q: &Search, placements: &Vec<(Tag, Address)>) -> (r: Vec<Hit>)
    ensures
        hit_set(r@) == hits(*q, placement_set(placements@)),
    decreases q,
{
    match q {
        Search::Exactly(t) => exactly(*t, placements),
        Search::Or(args) => {
            let rs = hits_of_each(args, placements);
            union_all(&rs, Ghost(hits_each(args@, placement_set(placements@))))
        },
        Search::And(args) => {
            let ghost sets = hits_each(args@, placement_set(placements@));
            let rs = hits_of_each(args, placements);
            let u = union_all(&rs, Ghost(sets));
            let r = select(&u, &Combine::All, &rs, Ghost(sets));
            assert(hit_set(r@) =~= all_of(sets));
            r
        },
        Search::Xor(args) => {
            let ghost sets = hits_each(args@, placement_set(placements@));
            let rs = hits_of_each(args, placements);
            let u = union_all(&rs, Ghost(sets));
            let r = select(&u, &Combine::One, &rs, Ghost(sets));
            assert(hit_set(r@) =~= one_of(sets));
            r
        },
        Search::Not(args) => {
            let ghost sets = hits_each(args@, placement_set(placements@));
            let rs = hits_of_each(args, placements);
            if rs.len() == 0 {
                let r: Vec<Hit> = Vec::new();
                assert(hit_set(r@) =~= first_but_rest(sets));
                r
            } else {
                let r = select(&rs[0], &Combine::NoneAfterFirst, &rs, Ghost(sets));
                assert(hit_set(rs@[0]@) == sets[0]);
                assert(hit_set(r@) =~= first_but_rest(sets));
                r
            }
        },
    }
}

fn hits_of_each(args: &Vec<Search>, placements: &Vec<(Tag, Address)>) -> (rs: Vec<Vec<Hit>>)
    ensures
        lists_are(rs@, hits_each(args@, placement_set(placements@))),
    decreases args,
{
    proof {
        lemma_hits_each(args@, placement_set(placements@));
    }
    let mut rs: Vec<Vec<Hit>> = Vec::new();
    let mut i: usize = 0;
    while i < args.len()
        invariant
            i <= args.len(),
            rs.len() == i,
            hits_each(args@, placement_set(placements@)).len() == args.len(),
            forall|j: int|
                0 <= j < args.len() ==> #[trigger] hits_each(args@, placement_set(placements@))[j] == hits(
                    args@[j],
                    placement_set(placements@),
                ),
            forall|j: int| 0 <= j < i ==> hit_set(#[trigger] rs@[j]@) == hits(args@[j], placement_set(placements@)),
        decreases args.len() - i,
    {
        proof {
            assert(decreases_to!(args => args@[i as int]));
        }
        let r = hits_of(&args[i], placements);
        rs.push(r);
        i = i + 1;
    }
    rs
}

/// An item found by a search, with the tags it was found by.
pub struct SearchResult {
    pub address: Address,
    pub in_terms_of: Vec<Tag>,
}

/// `results` names each item that `found` holds once, each with exactly the
/// tags it was found by, each tag once.
pub open spec fn lists_results(results: Seq<SearchResult>, found: Set<Hit>) -> bool {
    &&& forall|i: int, j: int|
        0 <= i < j < results.len() ==> results[i].address != results[j].address
    &&& forall|a: Address|
        in_domain(found, a) <==> exists|i: int|
            0 <= i < results.len() && (#[trigger] results[i]).address == a
    &&& forall|i: int, t: Tag|
        0 <= i < results.len() ==> (#[trigger] results[i].in_terms_of@.contains(t) <==> found.contains(
            (results[i].address, t),
        ))
    &&& forall|i: int| 0 <= i < results.len() ==> (#[trigger] results[i]).in_terms_of@.no_duplicates()
}

fn position_of(results: &Vec<SearchResult>, a: Address) -> (r: Option<usize>)
    ensures
        r matches Some(k) ==> k < results.len() && results@[k as int].address == a,
        r is None ==> forall|k: int| 0 <= k < results.len() ==> results@[k].address != a,
{
    let mut i: usize = 0;
    while i < results.len()
        invariant
            i <= results.len(),
            forall|k: int| 0 <= k < i ==> results@[k].address != a,
        decreases results.len() - i,
    {
        if results[i].address == a {
            return Some(i);
        }
        i = i + 1;
    }
    None
}

/// Whether `tags` holds `t`.
pub fn has_tag(tags: &Vec<Tag>, t: Tag) -> (r: bool)
    ensures
        r == tags@.contains(t),
{
    let mut i: usize = 0;
    while i < tags.len()
        invariant
            i <= tags.len(),
            forall|k: int| 0 <= k < i ==> tags@[k] != t,
        decreases tags.len() - i,
    {
        if tags[i] == t {
            assert(tags@[i as int] == t);
            return true;
        }
        i = i + 1;
    }
    false
}

fn group_hits(hs: &Vec<Hit>) -> (r: Vec<SearchResult>)
    ensures
        lists_results(r@, hit_set(hs@)),
{
    let mut r: Vec<SearchResult> = Vec::new();
    let mut i: usize = 0;
    while i < hs.len()
        invariant
            i <= hs.len(),
            lists_results(r@, hit_set(hs@.subrange(0, i as int))),
        decreases hs.len() - i,
    {
        let ghost found = hit_set(hs@.subrange(0, i as int));
        let ghost next = hit_set(hs@.subrange(0, i + 1));
        let (a, t) = hs[i];
        assert(next =~= found.insert((a, t))) by {
            assert(hs@.subrange(0, i + 1) =~= hs@.subrange(0, i as int).push((a, t)));
        }
        let ghost old_r = r@;
        match position_of(&r, a) {
            Some(k) => {
                if !has_tag(&r[k].in_terms_of, t) {
                    r[k].in_terms_of.push(t);
                }
                assert forall|j: int| 0 <= j < r.len() && j != k implies r@[j] == old_r[j] by {}
                assert forall|a2: Address| in_domain(next, a2) implies exists|j: int|
                    0 <= j < r.len() && (#[trigger] r@[j]).address == a2 by {
                    if a2 != a {
                        let t2 = choose|t2: Tag| next.contains((a2, t2));
                        assert(found.contains((a2, t2)));
                        assert(in_domain(found, a2));
                        let j = choose|j: int| 0 <= j < old_r.len() && (#[trigger] old_r[j]).address == a2;
                        assert(r@[j].address == old_r[j].address);
                    } else {
                        assert(r@[k as int].address == a2);
                    }
                }
                assert forall|a2: Address| (exists|j: int|
                    0 <= j < r.len() && (#[trigger] r@[j]).address == a2) implies in_domain(next, a2) by {
                    let j = choose|j: int| 0 <= j < r.len() && (#[trigger] r@[j]).address == a2;
                    assert(old_r[j].address == a2);
                    assert(in_domain(found, a2));
                    let t2 = choose|t2: Tag| found.contains((a2, t2));
                    assert(next.contains((a2, t2)));
                }
            },
            None => {
                let mut tags: Vec<Tag> = Vec::new();
                tags.push(t);
                r.push(SearchResult { address: a, in_terms_of: tags });
                assert(r@[old_r.len() as int].in_terms_of@ =~= seq![t]);
                assert forall|a2: Address| in_domain(next, a2) implies exists|j: int|
                    0 <= j < r.len() && (#[trigger] r@[j]).address == a2 by {
                    if a2 != a {
                        let t2 = choose|t2: Tag| next.contains((a2, t2));
                        assert(found.contains((a2, t2)));
                        assert(in_domain(found, a2));
                        let j = choose|j: int| 0 <= j < old_r.len() && (#[trigger] old_r[j]).address == a2;
                        assert(r@[j] == old_r[j]);
                    } else {
                        assert(r@[old_r.len() as int].address == a2);
                    }
                }
                assert forall|a2: Address| (exists|j: int|
                    0 <= j < r.len() && (#[trigger] r@[j]).address == a2) implies in_domain(next, a2) by {
                    let j = choose|j: int| 0 <= j < r.len() && (#[trigger] r@[j]).address == a2;
                    if j < old_r.len() {
                        assert(old_r[j].address == a2);
                        assert(in_domain(found, a2));
                        let t2 = choose|t2: Tag| found.contains((a2, t2));
                        assert(next.contains((a2, t2)));
                    } else {
                        assert(next.contains((a2, t)));
                    }
                }
                assert forall|j: int, t2: Tag| 0 <= j < r.len() implies (
                    #[trigger] r@[j].in_terms_of@.contains(t2) <==> next.contains((r@[j].address, t2))) by {
                    if j < old_r.len() {
                        assert(r@[j] == old_r[j]);
                        assert(old_r[j].address != a);
                    } else {
                        if found.contains((a, t2)) {
                            assert(in_domain(found, a));
                        }
                        assert(r@[j].in_terms_of@[0] == t);
                    }
                }
            },
        }
        i = i + 1;
    }
    assert(hs@.subrange(0, i as int) =~= hs@);
    r
}

/// Evaluates `query` where `placements` lists each (tag, item) filing.
pub fn search_placements(query: &Search, placements: &Vec<(Tag, Address)>) -> (r: Vec<SearchResult>)
    ensures
        lists_results(r@, hits(*query, placement_set(placements@))),
{
    let hs = hits_of(query, placements);
    group_hits(&hs)
}

} // verus!
