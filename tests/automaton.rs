use ac_matcher::automaton::{fold_ascii, Automaton, Match};
use ac_matcher::patterns::split_patterns;

fn build(pats: &[&str]) -> Automaton {
    let v: Vec<Vec<u8>> = pats.iter().map(|p| p.as_bytes().to_vec()).collect();
    Automaton::build(&v)
}

fn spans(ms: &[Match]) -> Vec<(usize, usize)> {
    ms.iter().map(|m| (m.start, m.end)).collect()
}

#[test]
fn upper_case_pattern_matches_lower_case_text() {
    let a = build(&["ABC"]);
    assert_eq!(spans(&a.find_all(b"xxabcxx")), vec![(2, 5)]);
}

#[test]
fn lower_case_pattern_matches_mixed_case_text() {
    let a = build(&["hello"]);
    assert_eq!(spans(&a.find_all(b"say HeLLo")), vec![(4, 9)]);
}

#[test]
fn leftmost_match_wins_over_longer_later_one() {
    let a = build(&["he", "she", "hers"]);
    assert_eq!(spans(&a.find_all(b"shers")), vec![(0, 3)]);
}

#[test]
fn longest_match_at_the_same_start_wins() {
    let a = build(&["a", "ab", "abc"]);
    assert_eq!(spans(&a.find_all(b"abcab")), vec![(0, 3), (3, 5)]);
}

#[test]
fn order_of_patterns_does_not_change_result() {
    let a = build(&["abc", "ab", "a"]);
    assert_eq!(spans(&a.find_all(b"abcab")), vec![(0, 3), (3, 5)]);
}

#[test]
fn matches_do_not_overlap() {
    let a = build(&["a", "aa"]);
    let found = spans(&a.find_all(b"aaaaa"));
    assert_eq!(found, vec![(0, 2), (2, 4), (4, 5)]);
    for w in found.windows(2) {
        assert!(w[0].1 <= w[1].0);
        assert!(w[0].0 < w[1].0);
    }
}

#[test]
fn pattern_placed_between_text_is_found_in_place() {
    let a = build(&["needle", "hay"]);
    let hay = b"xyz-NEEDLE-zz";
    assert_eq!(spans(&a.find_all(hay)), vec![(4, 10)]);
}

#[test]
fn no_pattern_no_match() {
    let a = build(&["cat", "dog"]);
    assert!(a.find_all(b"a bird in the hand").is_empty());
    assert!(a.find_all(b"").is_empty());
}

#[test]
fn suffix_pattern_is_not_missed() {
    let a = build(&["abcd", "bc"]);
    assert_eq!(spans(&a.find_all(b"abce")), vec![(1, 3)]);
}

#[test]
fn empty_pattern_matches_at_every_free_position() {
    let a = build(&["", "b"]);
    assert_eq!(spans(&a.find_all(b"abc")), vec![(0, 0), (1, 2), (2, 2), (3, 3)]);
}

#[test]
fn limited_scan_stops_at_the_limit_and_reports_truncation() {
    let a = build(&["a"]);
    let (ms, truncated) = a.find_limited(b"aaaa", 2);
    assert_eq!(spans(&ms), vec![(0, 1), (1, 2)]);
    assert!(truncated);
    let (ms, truncated) = a.find_limited(b"aaaa", 4);
    assert_eq!(ms.len(), 4);
    assert!(!truncated);
    let (ms, truncated) = a.find_limited(b"aaaa", 0);
    assert!(ms.is_empty());
    assert!(truncated);
    let (ms, truncated) = a.find_limited(b"bbb", 0);
    assert!(ms.is_empty());
    assert!(!truncated);
}

#[test]
fn non_letters_are_not_folded() {
    assert_eq!(fold_ascii(b'A'), b'a');
    assert_eq!(fold_ascii(b'Z'), b'z');
    assert_eq!(fold_ascii(b'['), b'[');
    assert_eq!(fold_ascii(b'@'), b'@');
    assert_eq!(fold_ascii(0xC3), 0xC3);
    let a = build(&["[x]"]);
    assert!(a.find_all(b"{X}").is_empty());
    assert_eq!(spans(&a.find_all(b"[X]")), vec![(0, 3)]);
}

#[test]
fn split_on_single_spaces() {
    assert_eq!(split_patterns(b"he she hers"), vec![b"he".to_vec(), b"she".to_vec(), b"hers".to_vec()]);
    assert_eq!(split_patterns(b""), vec![Vec::<u8>::new()]);
    assert_eq!(split_patterns(b"a  b"), vec![b"a".to_vec(), Vec::new(), b"b".to_vec()]);
    assert_eq!(split_patterns(b"a "), vec![b"a".to_vec(), Vec::new()]);
}
