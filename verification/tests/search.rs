use tuxedo::search::{subseq_match_ci, substring_match_ci};

#[test]
fn matches_contiguous_substring() {
    assert_eq!(subseq_match_ci("Hello", "ell"), Some(vec![1, 2, 3]));
}

#[test]
fn matches_subsequence_with_gaps() {
    // "cade" finds C, a, d, e in "Call dentist".
    let positions = subseq_match_ci("Call dentist", "cade").unwrap();
    assert_eq!(positions, vec![0, 1, 5, 6]);
}

#[test]
fn case_insensitive_both_directions() {
    assert_eq!(subseq_match_ci("HELLO", "ell"), Some(vec![1, 2, 3]));
    assert_eq!(subseq_match_ci("hello", "ELL"), Some(vec![1, 2, 3]));
}

#[test]
fn empty_needle_is_none() {
    assert_eq!(subseq_match_ci("anything", ""), None);
}

#[test]
fn missing_chars_return_none() {
    assert_eq!(subseq_match_ci("hello", "xyz"), None);
    // "cae" is a subsequence of "Call dentist" but "caz" is not.
    assert_eq!(subseq_match_ci("Call dentist", "caz"), None);
}

#[test]
fn order_matters() {
    // 'd' appears after 'c', so "dc" is not a subsequence.
    assert_eq!(subseq_match_ci("Call dentist", "dc"), None);
}

#[test]
fn offsets_land_on_char_boundaries_for_unicode() {
    // "Café" byte layout: C(0) a(1) f(2) é(3..5).
    let positions = subseq_match_ci("Café", "cé").unwrap();
    assert_eq!(positions, vec![0, 3]);
    let haystack = "Café";
    for p in positions {
        let _ = &haystack[p..];
    }
}

#[test]
fn substring_matches_contiguous_run() {
    assert_eq!(substring_match_ci("Hello", "ell"), Some(vec![1, 2, 3]));
}

#[test]
fn substring_case_insensitive_both_directions() {
    assert_eq!(substring_match_ci("HELLO", "ell"), Some(vec![1, 2, 3]));
    assert_eq!(substring_match_ci("hello", "ELL"), Some(vec![1, 2, 3]));
}

#[test]
fn substring_empty_needle_is_none() {
    assert_eq!(substring_match_ci("anything", ""), None);
}

#[test]
fn substring_missing_returns_none() {
    assert_eq!(substring_match_ci("hello", "xyz"), None);
    // "cae" is not a contiguous substring of "Call dentist".
    assert_eq!(substring_match_ci("Call dentist", "cae"), None);
}

#[test]
fn substring_returns_first_occurrence_only() {
    assert_eq!(substring_match_ci("ab ab", "ab"), Some(vec![0, 1]));
}

#[test]
fn substring_offsets_land_on_char_boundaries_for_unicode() {
    let positions = substring_match_ci("Café", "fé").unwrap();
    assert_eq!(positions, vec![2, 3]);
    let haystack = "Café";
    for p in positions {
        let _ = &haystack[p..];
    }
}

#[test]
fn substring_matches_multiword_phrase_contiguously() {
    assert_eq!(
        substring_match_ci("Call dentist today", "call dentist"),
        Some(vec![0, 1, 2, 3, 4, 5, 6, 7, 8, 9, 10, 11])
    );
    // Two spaces in the haystack do not match the single-space needle.
    assert_eq!(substring_match_ci("call  dentist", "call dentist"), None);
}

#[test]
fn substring_does_not_match_with_gaps() {
    assert_eq!(substring_match_ci("Call dentist", "cade"), None);
    assert_eq!(substring_match_ci("the name", "thane"), None);
}

#[test]
fn substring_haystack_shorter_than_needle_returns_none() {
    assert_eq!(substring_match_ci("", "a"), None);
    assert_eq!(substring_match_ci("ab", "abc"), None);
    assert_eq!(substring_match_ci("abc", "xyz"), None);
}
