use riinguist::matcher::{best_match, score};

fn chars(s: &str) -> Vec<char> {
    s.chars().collect()
}

fn keys(ks: &[&str]) -> Vec<String> {
    ks.iter().map(|k| k.to_string()).collect()
}

#[test]
fn exact_match_wins() {
    let ks = keys(&["riichi", "pinfu"]);
    assert_eq!(best_match(&chars("riichi"), &ks), Some(0));
    assert_eq!(best_match(&chars("pinfu"), &ks), Some(1));
}

#[test]
fn identical_strings_score_full() {
    assert_eq!(score(&chars("abc"), &chars("abc")), 1000);
    assert_eq!(score(&chars("riichi"), &chars("riichi")), 1000);
}

#[test]
fn disjoint_strings_score_zero() {
    assert_eq!(score(&chars("abc"), &chars("xyz")), 0);
    assert_eq!(score(&chars("xyzzy"), &chars("riichi")), 0);
}

#[test]
fn near_miss_scores_high() {
    // one edit away at length seven: 1000 * 6 / 7
    assert_eq!(score(&chars("riichii"), &chars("riichi")), 857);
}

#[test]
fn noisy_query_finds_close_key() {
    let ks = keys(&["riichi", "pinfu"]);
    assert_eq!(best_match(&chars("riichii"), &ks), Some(0));
}

#[test]
fn hopeless_query_finds_nothing() {
    let ks = keys(&["riichi", "pinfu"]);
    assert_eq!(best_match(&chars("xyzzy"), &ks), None);
}

#[test]
fn threshold_is_inclusive() {
    // thirteen of twenty characters shared: exactly 650
    let ks = keys(&["aaaaaaaaaaaaaaaaaaaa"]);
    assert_eq!(score(&chars("aaaaaaaaaaaaa"), &ks[0].chars().collect()), 650);
    assert_eq!(best_match(&chars("aaaaaaaaaaaaa"), &ks), Some(0));
    // twelve of twenty: 600, below the floor
    assert_eq!(best_match(&chars("aaaaaaaaaaaa"), &ks), None);
}

#[test]
fn tie_goes_to_shorter_key() {
    // both keys score 666 against the query; the shorter one wins,
    // whatever the order
    let ks = keys(&["abcdefxyz", "abcdxy"]);
    assert_eq!(best_match(&chars("abcdef"), &ks), Some(1));
    let ks = keys(&["abcdxy", "abcdefxyz"]);
    assert_eq!(best_match(&chars("abcdef"), &ks), Some(0));
}

#[test]
fn full_tie_goes_to_earlier_key() {
    // equal score and equal length: the earlier key wins, deterministically
    let ks = keys(&["abcdxy", "abcdyz"]);
    assert_eq!(best_match(&chars("abcdef"), &ks), Some(0));
    let ks = keys(&["abcdyz", "abcdxy"]);
    assert_eq!(best_match(&chars("abcdef"), &ks), Some(0));
}

#[test]
fn score_falls_as_edits_grow() {
    let key = chars("riichi");
    let exact = score(&chars("riichi"), &key);
    let one_edit = score(&chars("riichix"), &key);
    let two_edits = score(&chars("riichxy"), &key);
    let three_edits = score(&chars("riicxyz"), &key);
    assert!(exact > one_edit);
    assert!(one_edit > two_edits);
    assert!(two_edits > three_edits);
}

#[test]
fn empty_key_set_finds_nothing() {
    let ks: Vec<String> = Vec::new();
    assert_eq!(best_match(&chars("anything"), &ks), None);
}
