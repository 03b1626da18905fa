use ladderz::dsa::{contains_duplicate, is_anagram, is_anagram2, two_sum};
use std::collections::HashSet;

#[test]
fn test_contains_duplicate() {
    let result = contains_duplicate(vec![1, 2, 3, 2]);
    let expected = true;
    assert_eq!(result, expected);
}

#[test]
fn test_is_anagram() {
    let result = is_anagram("marc".to_owned(), "cram".to_owned());
    let expected = true;
    assert_eq!(result, expected);
}

#[test]
fn test_two_sum() {
    let result: HashSet<i32> = HashSet::from_iter(two_sum(vec![2, 3, 8, 5], 8));
    let expected: HashSet<i32> = HashSet::from_iter(vec![1, 3]);
    assert_eq!(result, expected);
}

#[test]
fn no_duplicate_in_distinct_values() {
    assert!(!contains_duplicate(vec![1, 2, 3]));
    assert!(!contains_duplicate(vec![]));
    assert!(contains_duplicate(vec![5, 5]));
}

#[test]
fn anagram_rejects_length_mismatch() {
    assert!(!is_anagram("marc".to_owned(), "cramx".to_owned()));
    assert!(!is_anagram2("marc".to_owned(), "cramx".to_owned()));
}

#[test]
fn anagram_strategies_agree() {
    let cases = [
        ("marc", "cram"),
        ("marc", "cramx"),
        ("", ""),
        ("a", ""),
        ("aab", "abb"),
        ("listen", "silent"),
        ("resume", "resume"),
    ];
    for (a, b) in cases {
        assert_eq!(
            is_anagram(a.to_owned(), b.to_owned()),
            is_anagram2(a.to_owned(), b.to_owned())
        );
    }
}

#[test]
fn anagram_counts_repetitions() {
    assert!(!is_anagram("aab".to_owned(), "abb".to_owned()));
    assert!(is_anagram("aabb".to_owned(), "baba".to_owned()));
}

#[test]
fn anagram_handles_wide_characters() {
    assert!(is_anagram("ab\u{00e9}".to_owned(), "\u{00e9}ba".to_owned()));
    assert!(!is_anagram("ab\u{00e9}".to_owned(), "abe".to_owned()));
}

#[test]
fn two_sum_prefers_latest_partner() {
    // indices 0 and 1 both need a 5; the later one wins the partner slot
    assert_eq!(two_sum(vec![1, 1, 5], 6), vec![2, 1]);
    // a value pairing with its own double counts only across two positions
    assert_eq!(two_sum(vec![3, 3, 5], 6), vec![1, 0]);
}

#[test]
fn two_sum_reports_earliest_completion() {
    // index 2 completes a pair before index 3 does
    assert_eq!(two_sum(vec![1, 4, 5, 2], 6), vec![2, 0]);
}

#[test]
fn repeated_dsa_calls_agree() {
    assert_eq!(
        two_sum(vec![2, 3, 8, 5], 8),
        two_sum(vec![2, 3, 8, 5], 8)
    );
    assert_eq!(
        contains_duplicate(vec![4, 7, 4]),
        contains_duplicate(vec![4, 7, 4])
    );
    assert_eq!(
        is_anagram("stone".to_owned(), "notes".to_owned()),
        is_anagram("stone".to_owned(), "notes".to_owned())
    );
}
