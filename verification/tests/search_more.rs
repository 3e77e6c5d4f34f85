use tuxedo::search::{lowercase_char, subseq_match_ci, substring_match_ci};

#[test]
fn subsequence_takes_the_leftmost_characters() {
    // Each needle char takes the first matching char after the previous one.
    assert_eq!(subseq_match_ci("aXbXab", "ab"), Some(vec![0, 2]));
    assert_eq!(subseq_match_ci("banana", "aa"), Some(vec![1, 3]));
}

#[test]
fn substring_skips_a_partial_match() {
    assert_eq!(substring_match_ci("aab", "ab"), Some(vec![1, 2]));
    assert_eq!(substring_match_ci("xxabab", "bab"), Some(vec![3, 4, 5]));
}

#[test]
fn offsets_count_bytes_of_wide_characters() {
    // 'é' takes two bytes, '€' three, '😀' four.
    assert_eq!(substring_match_ci("é€😀z", "z"), Some(vec![9]));
    assert_eq!(subseq_match_ci("é€😀z", "€z"), Some(vec![2, 9]));
    assert_eq!(substring_match_ci("é€😀z", "😀"), Some(vec![5]));
}

#[test]
fn non_ascii_letters_compare_by_lowercase() {
    assert_eq!(substring_match_ci("ÉCOLE", "école"), Some(vec![0, 2, 3, 4, 5]));
    assert_eq!(subseq_match_ci("STRASSE", "ss"), Some(vec![0, 4]));
}

#[test]
fn a_char_with_a_longer_lowercase_is_compared_as_a_whole() {
    // 'İ' lowercases to "i" plus a combining dot, which is not "i".
    assert_eq!(substring_match_ci("İa", "i"), None);
    assert_eq!(substring_match_ci("İa", "a"), Some(vec![2]));
    assert_eq!(substring_match_ci("İa", "İ"), Some(vec![0]));
}

#[test]
fn substring_match_is_also_a_subsequence_match() {
    for (h, n) in [("Call dentist", "dent"), ("ab ab", "b a"), ("Café", "afé")] {
        assert!(substring_match_ci(h, n).is_some());
        assert!(subseq_match_ci(h, n).is_some());
    }
}

#[test]
fn needle_case_does_not_change_the_result() {
    assert_eq!(substring_match_ci("Call Dentist", "DENT"), substring_match_ci("Call Dentist", "dent"));
    assert_eq!(subseq_match_ci("Call Dentist", "CDT"), subseq_match_ci("Call Dentist", "cdt"));
}

#[test]
fn whole_haystack_match() {
    assert_eq!(substring_match_ci("abc", "ABC"), Some(vec![0, 1, 2]));
    assert_eq!(subseq_match_ci("abc", "ABC"), Some(vec![0, 1, 2]));
    assert_eq!(subseq_match_ci("", "a"), None);
}

#[test]
fn longer_needle_never_matches() {
    assert_eq!(substring_match_ci("ab", "abc"), None);
    assert_eq!(subseq_match_ci("ab", "abc"), None);
    assert_eq!(subseq_match_ci("", "x"), None);
}

#[test]
fn haystack_case_does_not_change_the_result() {
    assert_eq!(substring_match_ci("CALL DENTIST", "dent"), substring_match_ci("call dentist", "dent"));
    assert_eq!(subseq_match_ci("CALL DENTIST", "cdt"), subseq_match_ci("call dentist", "cdt"));
}

#[test]
fn lowercase_char_gives_the_full_mapping() {
    assert_eq!(lowercase_char('A'), "a");
    assert_eq!(lowercase_char('z'), "z");
    assert_eq!(lowercase_char('7'), "7");
    assert_eq!(lowercase_char('\u{c9}'), "\u{e9}");
    // Capital I with dot above lowers to two characters.
    assert_eq!(lowercase_char('\u{130}'), "i\u{307}");
}
