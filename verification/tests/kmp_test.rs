use portforwarder::kmp::{build_kmp_table, kmp_search};

#[test]
fn table_of_repeating_pattern() {
    assert_eq!(build_kmp_table(b"ababc"), vec![0, 0, 1, 2, 0]);
    assert_eq!(build_kmp_table(b"aaaa"), vec![0, 1, 2, 3]);
    assert_eq!(build_kmp_table(b"abc"), vec![0, 0, 0]);
}

#[test]
fn finds_first_occurrence() {
    assert_eq!(kmp_search(b"abcabcabd", b"abcabd"), Some(3));
    assert_eq!(kmp_search(b"hello world", b"world"), Some(6));
    assert_eq!(kmp_search(b"aaaab", b"aab"), Some(2));
}

#[test]
fn reports_absence() {
    assert_eq!(kmp_search(b"abcdef", b"gh"), None);
    assert_eq!(kmp_search(b"aaaa", b"aaaaa"), None);
}

#[test]
fn empty_pattern_matches_at_start() {
    assert_eq!(kmp_search(b"anything", b""), Some(0));
    assert_eq!(kmp_search(b"", b""), Some(0));
}
