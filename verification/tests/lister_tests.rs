use linemark::lister::entry_hidden;
use linemark::lister::filter_entries;
use linemark::lister::parse_ls_args;

#[test]
fn default_listing_skips_hidden_entries() {
    let names = vec![b".git".to_vec(), b"a.txt".to_vec(), b"b.txt".to_vec()];
    let out = filter_entries(&names, false);
    assert_eq!(out, vec![b"a.txt".to_vec(), b"b.txt".to_vec()]);
}

#[test]
fn show_all_keeps_hidden_entries() {
    let names = vec![b".git".to_vec(), b"a.txt".to_vec(), b"b.txt".to_vec()];
    let out = filter_entries(&names, true);
    assert_eq!(
        out,
        vec![b".git".to_vec(), b"a.txt".to_vec(), b"b.txt".to_vec()]
    );
}

#[test]
fn enumeration_order_is_kept() {
    let names = vec![b"b.txt".to_vec(), b".hidden".to_vec(), b"a.txt".to_vec()];
    let out = filter_entries(&names, false);
    assert_eq!(out, vec![b"b.txt".to_vec(), b"a.txt".to_vec()]);
}

#[test]
fn hidden_is_leading_dot() {
    assert!(entry_hidden(b".git"));
    assert!(!entry_hidden(b"a.txt"));
    assert!(!entry_hidden(b""));
}

#[test]
fn ls_args_default() {
    let args = vec![b"ls".to_vec()];
    assert_eq!(parse_ls_args(&args), (false, b".".to_vec()));
}

#[test]
fn ls_args_flag_only() {
    let args = vec![b"ls".to_vec(), b"-a".to_vec()];
    assert_eq!(parse_ls_args(&args), (true, b".".to_vec()));
}

#[test]
fn ls_args_path_only() {
    let args = vec![b"ls".to_vec(), b"dir".to_vec()];
    assert_eq!(parse_ls_args(&args), (false, b"dir".to_vec()));
}

#[test]
fn ls_args_flag_before_path() {
    let args = vec![b"ls".to_vec(), b"-a".to_vec(), b"dir".to_vec()];
    assert_eq!(parse_ls_args(&args), (true, b"dir".to_vec()));
}

#[test]
fn ls_args_flag_after_path() {
    let args = vec![b"ls".to_vec(), b"dir".to_vec(), b"-a".to_vec()];
    assert_eq!(parse_ls_args(&args), (true, b"dir".to_vec()));
}

#[test]
fn ls_args_last_path_wins() {
    let args = vec![
        b"ls".to_vec(),
        b"x".to_vec(),
        b"-a".to_vec(),
        b"y".to_vec(),
    ];
    assert_eq!(parse_ls_args(&args), (true, b"y".to_vec()));
}
