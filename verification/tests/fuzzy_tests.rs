//! Edit distance and ranking behaviour.

use graph_demo::fuzzy::levenshtein_distance;
use graph_demo::fuzzy::min;
use graph_demo::fuzzy::t;
use graph_demo::rank::rank;

#[test]
fn distance_to_self_is_zero() {
    assert_eq!(levenshtein_distance("", ""), 0);
    assert_eq!(levenshtein_distance("a", "a"), 0);
    assert_eq!(levenshtein_distance("schedule", "schedule"), 0);
}

#[test]
fn distance_is_symmetric() {
    let pairs = [("kitten", "sitting"), ("add", "adx"), ("", "route"), ("flaw", "lawn")];
    for (a, b) in pairs {
        assert_eq!(levenshtein_distance(a, b), levenshtein_distance(b, a));
    }
}

#[test]
fn distance_from_empty_is_length() {
    assert_eq!(levenshtein_distance("", "abc"), 3);
    assert_eq!(levenshtein_distance("", "schedule"), 8);
    assert_eq!(levenshtein_distance("xyz", ""), 3);
}

#[test]
fn distance_exact_values() {
    assert_eq!(levenshtein_distance("kitten", "sitting"), 3);
    assert_eq!(levenshtein_distance("add", "adx"), 1);
    assert_eq!(levenshtein_distance("flaw", "lawn"), 2);
    // The first column's diagonal matters: two deletions, not one.
    assert_eq!(levenshtein_distance("aab", "a"), 2);
}

#[test]
fn ternary_and_min() {
    assert_eq!(t(true, 1, 2), 1);
    assert_eq!(t(false, 1, 2), 2);
    assert_eq!(t(true, "a", "b"), "a");
    assert_eq!(min(3, 1, 2), 1);
    assert_eq!(min(1, 2, 3), 1);
    assert_eq!(min(3, 2, 1), 1);
    assert_eq!(min(2, 2, 2), 2);
}

#[test]
fn rank_returns_at_most_three() {
    let names: Vec<String> =
        ["list", "add", "remove", "connect", "help"].iter().map(|s| s.to_string()).collect();
    let r = rank("xyz", &names);
    assert_eq!(r.len(), 3);

    let two: Vec<String> = ["list", "add"].iter().map(|s| s.to_string()).collect();
    let r2 = rank("xyz", &two);
    assert_eq!(r2.len(), 2);

    let none: Vec<String> = Vec::new();
    let r0 = rank("xyz", &none);
    assert_eq!(r0.len(), 0);
}

#[test]
fn rank_scenario_registry() {
    // Registry {list, add, remove}; input "adx" ranks `add` first, at
    // distance one.
    let names: Vec<String> = ["list", "add", "remove"].iter().map(|s| s.to_string()).collect();
    let r = rank("adx", &names);
    assert_eq!(r.len(), 3);
    assert_eq!(r[0].word, "add");
    assert_eq!(r[0].ranking, 1);
    for k in 1..r.len() {
        assert!(r[k - 1].ranking <= r[k].ranking);
    }
}

#[test]
fn rank_ties_break_by_name() {
    let names: Vec<String> = ["bb", "ab", "ba"].iter().map(|s| s.to_string()).collect();
    // All at distance one from "aa": tie broken by name order.
    let r = rank("aa", &names);
    assert_eq!(r[0].word, "ab");
    assert_eq!(r[1].word, "ba");
    assert_eq!(r[2].word, "bb");
}
