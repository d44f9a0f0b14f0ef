use vastar::base64::base64_encode;
use vastar::cli::{build_headers, parse_duration, request_target, split_header, validate_counts, FlatArgError};
use vastar::report::{bar_color, histogram_bar_lengths, is_success_status, progress_bar, status_info, strip_ansi_len};
use vastar::sweep::DurationSpec;

#[test]
fn base64_vectors() {
    assert_eq!(base64_encode(b""), "");
    assert_eq!(base64_encode(b"f"), "Zg==");
    assert_eq!(base64_encode(b"fo"), "Zm8=");
    assert_eq!(base64_encode(b"foo"), "Zm9v");
    assert_eq!(base64_encode(b"foobar"), "Zm9vYmFy");
    assert_eq!(base64_encode(b"user:pass"), "dXNlcjpwYXNz");
    assert_eq!(base64_encode(&[0xff, 0xfe, 0x3e]), "//4+");
    assert_eq!(base64_encode(b"hello world").len(), (11 + 2) / 3 * 4);
}

#[test]
fn flat_duration() {
    assert_eq!(parse_duration("10s"), Some(DurationSpec::FractionalSecs("10".to_string())));
    assert_eq!(parse_duration("1m"), Some(DurationSpec::Secs(60)));
    assert_eq!(parse_duration("2h"), Some(DurationSpec::Secs(7200)));
    assert_eq!(parse_duration(" 45 "), Some(DurationSpec::Secs(45)));
    assert_eq!(parse_duration("xm"), None);
    assert_eq!(parse_duration("abc"), None);
    assert_eq!(parse_duration("99999999999999999999m"), None);
}

#[test]
fn header_options() {
    assert_eq!(split_header("X-Custom:  Value "), Some(("x-custom".to_string(), "Value".to_string())));
    assert_eq!(split_header("Authorization: Bearer a:b"), Some(("authorization".to_string(), "Bearer a:b".to_string())));
    assert_eq!(split_header("ÄBC: x"), Some(("äbc".to_string(), "x".to_string())));
    assert_eq!(split_header("novalue"), None);
}

#[test]
fn built_headers() {
    let custom = vec!["X-A: 1".to_string(), "bad".to_string(), "Accept: b".to_string()];
    let h = build_headers("text/html", "vastar/0.1.0", Some("a/b"), true, Some("user:pass"), &custom);
    let expect: Vec<(String, String)> = vec![
        ("content-type", "text/html"),
        ("user-agent", "vastar/0.1.0"),
        ("accept", "a/b"),
        ("accept-encoding", "identity"),
        ("authorization", "Basic dXNlcjpwYXNz"),
        ("x-a", "1"),
        ("accept", "b"),
    ]
    .into_iter()
    .map(|(k, v)| (k.to_string(), v.to_string()))
    .collect();
    assert_eq!(h, expect);
    let h = build_headers("application/json", "ua", None, false, None, &vec![]);
    assert_eq!(h.len(), 2);
}

#[test]
fn flat_counts() {
    assert_eq!(validate_counts(0, 0, false), Err(FlatArgError::ZeroConcurrency));
    assert_eq!(validate_counts(5, 0, false), Err(FlatArgError::ZeroRequests));
    assert_eq!(validate_counts(5, 4, false), Err(FlatArgError::FewerRequestsThanWorkers));
    assert_eq!(validate_counts(5, 0, true), Ok(()));
    assert_eq!(validate_counts(5, 5, false), Ok(()));
    assert_eq!(request_target(200, 0, false), 200);
    assert_eq!(request_target(100, 500, false), 500);
    assert_eq!(request_target(100, 500, true), usize::MAX / 2);
}

#[test]
fn status_labels() {
    assert_eq!(status_info(200, false), ("", "OK"));
    assert_eq!(status_info(404, true), ("\x1b[38;5;202m", "Not Found"));
    assert_eq!(status_info(503, true), ("\x1b[38;5;124m", "Service Unavailable"));
    assert_eq!(status_info(302, true), ("\x1b[38;5;178m", "Redirect"));
    assert_eq!(status_info(299, true), ("\x1b[38;5;34m", "Unknown"));
    assert_eq!(status_info(99, true), ("", "Unknown"));
    assert!(is_success_status(204));
    assert!(!is_success_status(300));
}

#[test]
fn ansi_width() {
    assert_eq!(strip_ansi_len("plain"), 5);
    assert_eq!(strip_ansi_len("\x1b[38;5;22m\u{2588}\u{2588}\x1b[0m elite"), 8);
    assert_eq!(strip_ansi_len("\x1b[unterminated"), 6);
    assert_eq!(strip_ansi_len("ab\x1b[31"), 2);
}

#[test]
fn progress_and_bars() {
    assert_eq!(progress_bar(50, 200), (25, 10));
    assert_eq!(progress_bar(200, 200), (100, 40));
    assert_eq!(progress_bar(500, 200), (250, 40));
    assert_eq!(progress_bar(5, 0), (0, 0));
    assert_eq!((bar_color(0), bar_color(8), bar_color(16), bar_color(24), bar_color(39)), (22, 28, 34, 40, 82));
    assert_eq!(histogram_bar_lengths(&vec![107, 1088, 0, 544]), vec![4, 48, 0, 24]);
    assert_eq!(histogram_bar_lengths(&vec![0, 0]), vec![0, 0]);
}
