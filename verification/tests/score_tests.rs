use flow::cmd::search::{score_part, score_query};

#[test]
fn exact_segment_match_earns_run_and_bonuses() {
    // f: 1 + anchor 4; o: 1 + 2; o: 1 + 4; full-length bonus: 4.
    assert_eq!(score_part("foo", "foo"), 17);
}

#[test]
fn prefix_match_without_full_length_bonus() {
    // b: 1 + anchor 4; a: 1 + 2; 'r' of the segment stays unmatched.
    assert_eq!(score_part("ba", "bar"), 8);
    assert_eq!(score_part("ba", "baz"), 8);
}

#[test]
fn scattered_subsequence_earns_flat_points() {
    // a found by scanning: 1; z in lock-step: 1 + 2; full-length bonus: 4.
    assert_eq!(score_part("az", "baz"), 8);
}

#[test]
fn non_subsequence_scores_zero() {
    assert_eq!(score_part("abc", "xyz"), 0);
    assert_eq!(score_part("ab", "a"), 0);
    assert_eq!(score_part("ab", "ax"), 0);
    assert_eq!(score_part("a", ""), 0);
}

#[test]
fn empty_token_scores_zero() {
    assert_eq!(score_part("", "abc"), 0);
    assert_eq!(score_part("", ""), 0);
}

#[test]
fn subsequence_always_scores_positive() {
    assert!(score_part("ace", "abcde") > 0);
    assert!(score_part("ce", "abcde") > 0);
    assert!(score_part("abcde", "abcde") > 0);
}

#[test]
fn multibyte_characters_count_as_single_characters() {
    assert_eq!(score_part("\u{65e5}", "\u{65e5}"), 9);
    assert_eq!(score_part("\u{65e5}\u{672c}", "\u{65e5}x\u{672c}"), 10);
}

#[test]
fn too_few_segments_scores_zero() {
    assert_eq!(score_query("fo ba", "a/b/c"), 0);
    assert_eq!(score_query("a b", "only"), 0);
}

#[test]
fn full_consumption_earns_depth_bonus() {
    // foo: 17 on its segment; bar: 17; no trailing segment: +10.
    assert_eq!(score_query("foo bar", "x/foo/bar"), 44);
}

#[test]
fn anchor_tie_prefers_first_occurrence() {
    // "ba" scores 8 on bar and on baz; the earlier segment anchors, and
    // baz stays unconsumed, so no depth bonus applies.
    assert_eq!(score_query("ba", "foo/bar/baz"), 8);
}

#[test]
fn anchor_moves_to_strictly_best_segment() {
    // "az" scores 0 on bar but 8 on baz; anchoring there consumes the
    // whole path and earns the depth bonus.
    assert_eq!(score_query("az", "foo/bar/baz"), 18);
}

#[test]
fn anchor_must_match_somewhere() {
    assert_eq!(score_query("zz", "foo/bar/baz"), 0);
}

#[test]
fn every_token_must_clear_the_threshold() {
    // "r" scores only 1 on "xrx": below the threshold of 5, and no
    // further segment qualifies, so the whole candidate fails.
    assert_eq!(score_query("foo r", "x/foo/xrx"), 0);
}

#[test]
fn threshold_of_five_qualifies() {
    // "r" on "bar": one scanned hit plus the full-length bonus is
    // exactly 5, which qualifies, and the path is fully consumed.
    assert_eq!(score_part("r", "bar"), 5);
    assert_eq!(score_query("foo r", "x/foo/bar"), 32);
}

#[test]
fn project_path_scores_with_leading_empty_segment() {
    assert_eq!(score_query("proj", "/r/proj2"), 30);
}
