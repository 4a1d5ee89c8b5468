use moadim_ui::log_viewer::{filter_lines, highlight_segments, match_count};

#[test]
fn empty_query_returns_all_lines_numbered_from_one() {
    let out = filter_lines("alpha\nbeta\ngamma", "");
    assert_eq!(out, vec![(1, "alpha"), (2, "beta"), (3, "gamma")]);
}

#[test]
fn blank_query_whitespace_returns_all() {
    assert_eq!(filter_lines("x\ny", "   ").len(), 2);
}

#[test]
fn query_filters_case_insensitively() {
    let content = "INFO: server started\nERROR: connection refused\nWARN: retrying";
    let out = filter_lines(content, "ERROR");
    assert_eq!(out.len(), 1);
    assert_eq!(out[0], (2, "ERROR: connection refused"));
}

#[test]
fn query_preserves_original_line_numbers() {
    let out = filter_lines("line 1\nline 2\nline 3\nline 4", "line 3");
    assert_eq!(out, vec![(3, "line 3")]);
}

#[test]
fn no_match_returns_empty_vec() {
    assert!(filter_lines("hello world", "zzz").is_empty());
}

#[test]
fn single_line_exact_match() {
    let out = filter_lines("hello", "hello");
    assert_eq!(out, vec![(1, "hello")]);
}

#[test]
fn single_line_no_match() {
    assert!(filter_lines("hello", "world").is_empty());
}

#[test]
fn trailing_newline_does_not_produce_extra_numbered_line() {
    let out = filter_lines("alpha\n", "");
    assert_eq!(out.len(), 1);
}

#[test]
fn blank_query_count_equals_total() {
    let (hits, total) = match_count("a\nb\nc", "");
    assert_eq!(hits, 3);
    assert_eq!(total, 3);
}

#[test]
fn whitespace_query_treated_as_blank() {
    let (hits, total) = match_count("a\nb", "   ");
    assert_eq!(hits, total);
}

#[test]
fn partial_match_count() {
    let (hits, total) = match_count("foo\nbar\nfoo bar", "foo");
    assert_eq!(hits, 2);
    assert_eq!(total, 3);
}

#[test]
fn no_match_count_is_zero() {
    let (hits, total) = match_count("a\nb", "z");
    assert_eq!(hits, 0);
    assert_eq!(total, 2);
}

#[test]
fn match_count_is_case_insensitive() {
    let (hits, _) = match_count("ERROR\nerror\nOk", "error");
    assert_eq!(hits, 2);
}

#[test]
fn empty_content_gives_zero_total() {
    let (hits, total) = match_count("", "anything");
    assert_eq!(hits, 0);
    assert_eq!(total, 0);
}

#[test]
fn empty_content_blank_query() {
    let (hits, total) = match_count("", "");
    assert_eq!(hits, 0);
    assert_eq!(total, 0);
}

#[test]
fn blank_query_yields_a_single_unmatched_segment() {
    assert_eq!(highlight_segments("hello world", ""), vec![(false, "hello world")]);
    assert_eq!(highlight_segments("hello world", "   "), vec![(false, "hello world")]);
}

#[test]
fn single_case_insensitive_match_in_the_middle() {
    assert_eq!(
        highlight_segments("see ERROR here", "error"),
        vec![(false, "see "), (true, "ERROR"), (false, " here")]
    );
}

#[test]
fn multiple_matches_are_all_highlighted() {
    assert_eq!(highlight_segments("foo bar foo", "foo"), vec![(true, "foo"), (false, " bar "), (true, "foo")]);
}

#[test]
fn no_match_yields_a_single_unmatched_segment() {
    assert_eq!(highlight_segments("hello world", "zzz"), vec![(false, "hello world")]);
}

#[test]
fn match_spanning_the_whole_text_yields_one_segment() {
    assert_eq!(highlight_segments("foo", "foo"), vec![(true, "foo")]);
}

#[test]
fn regression_case_folding_that_shrinks_byte_length_does_not_panic_or_misalign() {
    assert_eq!(highlight_segments("\u{1E9E}zz", "zz"), vec![(false, "\u{1E9E}"), (true, "zz")]);
}

#[test]
fn regression_case_folding_that_grows_byte_length_does_not_panic_or_misalign() {
    assert_eq!(highlight_segments("\u{130}zz", "zz"), vec![(false, "\u{130}"), (true, "zz")]);
}

#[test]
fn overlapping_occurrences_are_taken_left_to_right() {
    assert_eq!(highlight_segments("aaa", "aa"), vec![(true, "aa"), (false, "a")]);
}

#[test]
fn segments_rebuild_the_text_and_highlight_only_matches() {
    let text = "Error: disk ERROR again, error.";
    let segs = highlight_segments(text, " error ");
    let rebuilt: String = segs.iter().map(|(_, s)| *s).collect();
    assert_eq!(rebuilt, text);
    assert!(segs.iter().all(|(_, s)| !s.is_empty()));
    assert!(segs.iter().filter(|(h, _)| *h).all(|(_, s)| s.to_lowercase() == "error"));
    assert_eq!(segs.iter().filter(|(h, _)| *h).count(), 3);
}
