use comet::{search_placements, Address, Search, SearchResult, Store};

const ALICE: Address = Address(1_000_000);

fn sorted(results: Vec<SearchResult>) -> Vec<(Address, Vec<u64>)> {
    let mut out: Vec<(Address, Vec<u64>)> = results
        .into_iter()
        .map(|r| {
            let mut tags = r.in_terms_of;
            tags.sort();
            (r.address, tags)
        })
        .collect();
    out.sort_by_key(|(a, _)| a.0);
    out
}

fn exactly_both() -> Vec<Search> {
    vec![Search::Exactly(1), Search::Exactly(2)]
}

/// Tags 1, 2, 3 file {A, B}, {B, C}, {C}.
fn placements() -> Vec<(u64, Address)> {
    vec![
        (1, Address(10)),
        (1, Address(11)),
        (2, Address(11)),
        (2, Address(12)),
        (3, Address(12)),
    ]
}

const A: Address = Address(10);
const B: Address = Address(11);
const C: Address = Address(12);

#[test]
fn or_unions_items_and_tags() {
    let r = sorted(search_placements(&Search::Or(exactly_both()), &placements()));
    assert_eq!(r, vec![(A, vec![1]), (B, vec![1, 2]), (C, vec![2])]);
}

#[test]
fn and_keeps_items_found_by_all() {
    let r = sorted(search_placements(&Search::And(exactly_both()), &placements()));
    assert_eq!(r, vec![(B, vec![1, 2])]);
}

#[test]
fn xor_keeps_items_found_by_exactly_one() {
    let r = sorted(search_placements(&Search::Xor(exactly_both()), &placements()));
    assert_eq!(r, vec![(A, vec![1]), (C, vec![2])]);
}

#[test]
fn not_removes_items_of_the_rest() {
    let r = sorted(search_placements(&Search::Not(exactly_both()), &placements()));
    assert_eq!(r, vec![(A, vec![1])]);
}

#[test]
fn empty_arguments_find_nothing() {
    for q in [
        Search::And(vec![]),
        Search::Or(vec![]),
        Search::Xor(vec![]),
        Search::Not(vec![]),
    ] {
        assert!(search_placements(&q, &placements()).is_empty());
    }
}

#[test]
fn xor_of_three_and_nesting() {
    let q = Search::Xor(vec![
        Search::Exactly(1),
        Search::Exactly(2),
        Search::Exactly(3),
    ]);
    assert_eq!(sorted(search_placements(&q, &placements())), vec![(A, vec![1])]);
    let nested = Search::Not(vec![
        Search::Or(vec![Search::Exactly(2), Search::Exactly(3)]),
        Search::Exactly(1),
    ]);
    assert_eq!(
        sorted(search_placements(&nested, &placements())),
        vec![(C, vec![2, 3])]
    );
}

#[test]
fn repeated_tag_is_listed_once() {
    let q = Search::Or(vec![Search::Exactly(1), Search::Exactly(1)]);
    assert_eq!(
        sorted(search_placements(&q, &placements())),
        vec![(A, vec![1]), (B, vec![1])]
    );
}

/// The same algebra on posts in a store: A under 1, B under 1 and 2, C
/// under 2 and 3.
#[test]
fn store_search_set_algebra() {
    let mut store = Store::new();
    let a = store
        .create_post(ALICE, "A".to_string(), "a".to_string(), 1, &vec![1])
        .unwrap();
    let b = store
        .create_post(ALICE, "B".to_string(), "b".to_string(), 2, &vec![1, 2])
        .unwrap();
    let c = store
        .create_post(ALICE, "C".to_string(), "c".to_string(), 3, &vec![2, 3])
        .unwrap();
    let or = sorted(store.search(&Search::Or(exactly_both()), false));
    assert_eq!(or, vec![(a, vec![1]), (b, vec![1, 2]), (c, vec![2])]);
    let and = sorted(store.search(&Search::And(exactly_both()), false));
    assert_eq!(and, vec![(b, vec![1, 2])]);
    let xor = sorted(store.search(&Search::Xor(exactly_both()), false));
    assert_eq!(xor, vec![(a, vec![1]), (c, vec![2])]);
    let not = sorted(store.search(&Search::Not(exactly_both()), false));
    assert_eq!(not, vec![(a, vec![1])]);
}

#[test]
fn crossposts_count_unless_excluded() {
    let mut store = Store::new();
    let a = store
        .create_post(ALICE, "A".to_string(), "a".to_string(), 1, &vec![1])
        .unwrap();
    store.crosspost(Address(2_000_000), a, &vec![9]).unwrap();
    let with = sorted(store.search(&Search::Exactly(9), false));
    assert_eq!(with, vec![(a, vec![9])]);
    assert!(store.search(&Search::Exactly(9), true).is_empty());
    assert_eq!(sorted(store.search(&Search::Exactly(1), true)), vec![(a, vec![1])]);
}

#[test]
fn searching_an_unknown_tag_finds_nothing() {
    let store = Store::new();
    assert!(store.search(&Search::Exactly(5), false).is_empty());
}
