use linemark::matcher::contains_pattern;
use linemark::matcher::find_from;
use linemark::matcher::highlight_pattern;

const MARK_START: &[u8] = b"\x1b[1;33m";
const MARK_END: &[u8] = b"\x1b[0m";

fn count_subslice(haystack: &[u8], needle: &[u8]) -> usize {
    let mut count = 0;
    if needle.is_empty() || haystack.len() < needle.len() {
        return 0;
    }
    for i in 0..=haystack.len() - needle.len() {
        if &haystack[i..i + needle.len()] == needle {
            count += 1;
        }
    }
    count
}

#[test]
fn highlight_single_occurrence() {
    let out = highlight_pattern(b"hello world", b"hello");
    assert_eq!(out, b"\x1b[1;33mhello\x1b[0m world".to_vec());
}

#[test]
fn highlight_two_occurrences() {
    let out = highlight_pattern(b"hello hello", b"hello");
    assert_eq!(out, b"\x1b[1;33mhello\x1b[0m \x1b[1;33mhello\x1b[0m".to_vec());
}

#[test]
fn highlight_no_occurrence_leaves_line_unchanged() {
    let out = highlight_pattern(b"foo", b"bar");
    assert_eq!(out, b"foo".to_vec());
}

#[test]
fn highlight_non_overlapping_matches() {
    // Pattern "aa" in "aaaa": the scan resumes strictly after each match,
    // so there are exactly 2 matches, not 3.
    let out = highlight_pattern(b"aaaa", b"aa");
    assert_eq!(out, b"\x1b[1;33maa\x1b[0m\x1b[1;33maa\x1b[0m".to_vec());
    assert_eq!(count_subslice(&out, MARK_START), 2);
    assert_eq!(count_subslice(&out, MARK_END), 2);
}

#[test]
fn highlight_empty_pattern_leaves_line_unchanged() {
    let out = highlight_pattern(b"hello", b"");
    assert_eq!(out, b"hello".to_vec());
}

#[test]
fn highlight_empty_line() {
    let out = highlight_pattern(b"", b"x");
    assert_eq!(out, b"".to_vec());
}

#[test]
fn highlight_pattern_longer_than_line() {
    let out = highlight_pattern(b"ab", b"abc");
    assert_eq!(out, b"ab".to_vec());
}

#[test]
fn highlight_pattern_equals_line() {
    let out = highlight_pattern(b"abc", b"abc");
    assert_eq!(out, b"\x1b[1;33mabc\x1b[0m".to_vec());
}

#[test]
fn highlight_adjacent_occurrences() {
    let out = highlight_pattern(b"ababab", b"ab");
    assert_eq!(
        out,
        b"\x1b[1;33mab\x1b[0m\x1b[1;33mab\x1b[0m\x1b[1;33mab\x1b[0m".to_vec()
    );
    assert_eq!(count_subslice(&out, MARK_START), 3);
}

#[test]
fn strip_of_highlight_recovers_line() {
    // Removing the inserted marker pairs gives back the original line.
    let line = b"one aa two aa three";
    let out = highlight_pattern(line, b"aa");
    let mut stripped = Vec::new();
    let mut i = 0;
    while i < out.len() {
        if out[i..].starts_with(MARK_START) {
            i += MARK_START.len();
        } else if out[i..].starts_with(MARK_END) {
            i += MARK_END.len();
        } else {
            stripped.push(out[i]);
            i += 1;
        }
    }
    assert_eq!(stripped, line.to_vec());
}

#[test]
fn find_from_first_occurrence() {
    assert_eq!(find_from(b"abcabc", b"bc", 0), Some(1));
}

#[test]
fn find_from_resumes_after_offset() {
    assert_eq!(find_from(b"abcabc", b"bc", 2), Some(4));
}

#[test]
fn find_from_none_when_absent() {
    assert_eq!(find_from(b"abcabc", b"zz", 0), None);
}

#[test]
fn find_from_none_past_last_occurrence() {
    assert_eq!(find_from(b"abcabc", b"bc", 5), None);
}

#[test]
fn contains_pattern_present() {
    assert!(contains_pattern(b"hello world", b"o w"));
}

#[test]
fn contains_pattern_absent() {
    assert!(!contains_pattern(b"hello world", b"xyz"));
}

#[test]
fn contains_pattern_empty_pattern_is_no_match() {
    assert!(!contains_pattern(b"hello", b""));
}
