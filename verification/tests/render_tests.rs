use linemark::render::parse_grep_args;
use linemark::render::process_line;
use linemark::render::process_lines;
use linemark::render::u64_to_decimal;

#[test]
fn decimal_zero() {
    assert_eq!(u64_to_decimal(0), b"0".to_vec());
}

#[test]
fn decimal_single_digit() {
    assert_eq!(u64_to_decimal(7), b"7".to_vec());
}

#[test]
fn decimal_two_digits() {
    assert_eq!(u64_to_decimal(10), b"10".to_vec());
}

#[test]
fn decimal_many_digits() {
    assert_eq!(u64_to_decimal(12345), b"12345".to_vec());
}

#[test]
fn decimal_largest() {
    assert_eq!(u64_to_decimal(u64::MAX), b"18446744073709551615".to_vec());
}

#[test]
fn record_for_matching_line() {
    let rec = process_line(12, b"hello world", b"hello");
    assert_eq!(rec, Some(b"12:\x1b[1;33mhello\x1b[0m world".to_vec()));
}

#[test]
fn no_record_for_non_matching_line() {
    assert_eq!(process_line(1, b"foo", b"hello"), None);
}

#[test]
fn no_record_for_empty_pattern() {
    assert_eq!(process_line(1, b"foo", b""), None);
}

#[test]
fn grep_scenario_hello() {
    let lines = vec![
        b"hello world".to_vec(),
        b"foo".to_vec(),
        b"hello hello".to_vec(),
    ];
    let out = process_lines(&lines, b"hello");
    assert_eq!(
        out,
        vec![
            b"1:\x1b[1;33mhello\x1b[0m world".to_vec(),
            b"3:\x1b[1;33mhello\x1b[0m \x1b[1;33mhello\x1b[0m".to_vec(),
        ]
    );
}

#[test]
fn line_numbers_count_non_matching_lines() {
    // Numbering is 1-based and advances for every line read, matching or not.
    let lines = vec![
        b"x".to_vec(),
        b"za".to_vec(),
        b"y".to_vec(),
        b"a".to_vec(),
    ];
    let out = process_lines(&lines, b"a");
    assert_eq!(
        out,
        vec![
            b"2:z\x1b[1;33ma\x1b[0m".to_vec(),
            b"4:\x1b[1;33ma\x1b[0m".to_vec(),
        ]
    );
}

#[test]
fn no_records_when_nothing_matches() {
    let lines = vec![b"one".to_vec(), b"two".to_vec()];
    let out = process_lines(&lines, b"three");
    assert_eq!(out, Vec::<Vec<u8>>::new());
}

#[test]
fn grep_args_rejected_with_one_argument() {
    let args = vec![b"grep".to_vec(), b"pattern".to_vec()];
    assert_eq!(parse_grep_args(&args), None);
}

#[test]
fn grep_args_rejected_with_no_arguments() {
    let args = vec![b"grep".to_vec()];
    assert_eq!(parse_grep_args(&args), None);
}

#[test]
fn grep_args_accepted_with_two_arguments() {
    let args = vec![b"grep".to_vec(), b"needle".to_vec(), b"notes.txt".to_vec()];
    let parsed = parse_grep_args(&args);
    assert_eq!(parsed, Some((b"needle".to_vec(), b"notes.txt".to_vec())));
}

#[test]
fn grep_args_ignore_extra_arguments() {
    let args = vec![
        b"grep".to_vec(),
        b"needle".to_vec(),
        b"notes.txt".to_vec(),
        b"extra".to_vec(),
    ];
    let parsed = parse_grep_args(&args);
    assert_eq!(parsed, Some((b"needle".to_vec(), b"notes.txt".to_vec())));
}
