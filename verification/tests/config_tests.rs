use memsearch::config::{parse_args, parse_entropy_arg, ScanConfig};
use memsearch::errors::{
    classify_pid_io_error, pid_error_disposition, ArgIssue, ErrorDisposition, SearchError,
};
use memsearch::pids::select_pids;

fn args(list: &[&str]) -> Vec<Vec<u8>> {
    list.iter().map(|s| s.as_bytes().to_vec()).collect()
}

fn parsed(list: &[&str]) -> ScanConfig {
    parse_args(&args(list)).unwrap()
}

#[test]
fn defaults_apply_when_no_arguments_are_given() {
    let c = parsed(&[]);
    assert_eq!(c.pid, None);
    assert!(!c.continuous);
    assert_eq!(c.min_length, 8);
    assert_eq!(c.min_entropy, 5_000_000);
}

#[test]
fn arguments_override_the_defaults() {
    let c = parsed(&["--pid", "1234", "--minlength", "16", "--minentropy", "4.5"]);
    assert_eq!(c.pid, Some(1234));
    assert_eq!(c.min_length, 16);
    assert_eq!(c.min_entropy, 4_500_000);
    assert!(!c.continuous);
    assert!(parsed(&["--continuous"]).continuous);
}

#[test]
fn later_arguments_win() {
    let c = parsed(&["--pid", "1", "--pid", "2"]);
    assert_eq!(c.pid, Some(2));
}

#[test]
fn a_flag_missing_its_value_is_rejected() {
    match parse_args(&args(&["--pid"])) {
        Err(SearchError::CliArgParse { arg, issue }) => {
            assert_eq!(arg, b"--pid".to_vec());
            assert_eq!(issue, ArgIssue::MissingValue);
        }
        other => panic!("expected CliArgParse, got {other:?}"),
    }
}

#[test]
fn a_non_numeric_value_is_rejected() {
    match parse_args(&args(&["--pid", "abc"])) {
        Err(SearchError::CliArgParse { arg, issue }) => {
            assert_eq!(arg, b"abc".to_vec());
            assert_eq!(issue, ArgIssue::NotANumber);
        }
        other => panic!("expected CliArgParse, got {other:?}"),
    }
    assert!(parse_args(&args(&["--pid", "4294967296"])).is_err());
    assert!(parse_args(&args(&["--minentropy", "1.2.3"])).is_err());
    assert!(parse_args(&args(&["--minentropy", "-"])).is_err());
    assert!(parse_args(&args(&["--minentropy", ""])).is_err());
}

#[test]
fn an_unknown_argument_is_rejected() {
    match parse_args(&args(&["--frobnicate"])) {
        Err(SearchError::CliArgParse { arg, issue }) => {
            assert_eq!(arg, b"--frobnicate".to_vec());
            assert_eq!(issue, ArgIssue::UnexpectedArgument);
        }
        other => panic!("expected CliArgParse, got {other:?}"),
    }
}

#[test]
fn entropy_thresholds_parse_as_scaled_fixed_point() {
    let e = |s: &str| parse_entropy_arg(&s.as_bytes().to_vec());
    assert_eq!(e("0"), Some(0));
    assert_eq!(e("5"), Some(5_000_000));
    assert_eq!(e("5.0"), Some(5_000_000));
    assert_eq!(e("4.5"), Some(4_500_000));
    assert_eq!(e(".5"), Some(500_000));
    assert_eq!(e("5."), Some(5_000_000));
    // Truncated past the sixth fraction digit.
    assert_eq!(e("0.1234567"), Some(123_456));
    // A negative threshold clamps to zero: entropy is never negative.
    assert_eq!(e("-3"), Some(0));
    assert_eq!(e("x"), None);
    assert_eq!(e("3-"), None);
}

#[test]
fn own_pid_is_never_selected() {
    let own = 4242;
    let listed = vec![1, 2, own, 3];
    assert_eq!(select_pids(None, &listed, own), vec![1, 2, 3]);
    assert_eq!(select_pids(Some(own), &listed, own), Vec::<u32>::new());
    assert_eq!(select_pids(Some(7), &listed, own), vec![7]);
}

#[test]
fn permission_denied_is_kept_distinct_from_other_io_failures() {
    assert!(matches!(
        classify_pid_io_error(9, true),
        SearchError::PermissionDenied { pid: 9 }
    ));
    assert!(matches!(
        classify_pid_io_error(9, false),
        SearchError::Io { pid: 9 }
    ));
}

#[test]
fn failures_on_an_explicit_target_are_fatal_otherwise_the_pid_is_skipped() {
    let denied = SearchError::PermissionDenied { pid: 5 };
    assert_eq!(
        pid_error_disposition(true, &denied),
        ErrorDisposition::Fatal
    );
    assert_eq!(
        pid_error_disposition(false, &denied),
        ErrorDisposition::SkipPid
    );
    let io = SearchError::Io { pid: 5 };
    assert_eq!(pid_error_disposition(false, &io), ErrorDisposition::SkipPid);
    assert_eq!(
        pid_error_disposition(false, &SearchError::ParseLine),
        ErrorDisposition::SkipPid
    );
}
