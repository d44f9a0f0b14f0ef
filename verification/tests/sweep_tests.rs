use vastar::sweep::{
    dedup_levels, json_string, levels_above, levels_except, mem_total_mb, nearest_concurrency, new_levels, parse_duration,
    resolve_conc_spec, step_range, validate_args, ConcSpec, DurationSpec, PickStrategy,
    SweepArgError,
};

#[test]
fn resolve_explicit_list() {
    assert_eq!(resolve_conc_spec("10,50,200", 1), ConcSpec::Levels(vec![10, 50, 200]));
}

#[test]
fn resolve_step_range() {
    assert_eq!(
        resolve_conc_spec("10..50:step=10", 1),
        ConcSpec::Levels(vec![10, 20, 30, 40, 50]),
    );
}

#[test]
fn json_escape_basic() {
    assert_eq!(json_string("a\"b"), "\"a\\\"b\"");
    assert_eq!(json_string("a\nb"), "\"a\\nb\"");
}

#[test]
fn json_escape_all_forms() {
    assert_eq!(json_string(""), "\"\"");
    assert_eq!(json_string("x\\y"), "\"x\\\\y\"");
    assert_eq!(json_string("\r\t"), "\"\\r\\t\"");
    assert_eq!(json_string("\u{1}\u{1f}"), "\"\\u0001\\u001f\"");
    assert_eq!(json_string("héllo ✓"), "\"héllo ✓\"");
}

#[test]
fn json_output_has_no_raw_control_chars() {
    let out = json_string("a\u{0}b\u{7}c\nd");
    assert!(out.chars().all(|c| (c as u32) >= 0x20));
    assert_eq!(out, "\"a\\u0000b\\u0007c\\nd\"");
}

#[test]
fn resolve_auto_and_defaults() {
    assert_eq!(resolve_conc_spec("auto", 1), ConcSpec::AutoAbove(1));
    assert_eq!(resolve_conc_spec("  auto ", 20), ConcSpec::AutoAbove(20));
    assert_eq!(
        resolve_conc_spec("10..1000:log=6", 1),
        ConcSpec::LogSpaced { lo: 10, hi: 1000, n: 6 },
    );
    assert_eq!(resolve_conc_spec("5..50:log", 1), ConcSpec::LogSpaced { lo: 5, hi: 50, n: 6 });
    assert_eq!(resolve_conc_spec("x..y:log=z", 1), ConcSpec::LogSpaced { lo: 10, hi: 1000, n: 6 });
    assert_eq!(resolve_conc_spec("nonsense", 1), ConcSpec::LogSpaced { lo: 10, hi: 1000, n: 7 });
}

#[test]
fn resolve_single_and_junk_list() {
    assert_eq!(resolve_conc_spec("64", 1), ConcSpec::Levels(vec![64]));
    assert_eq!(resolve_conc_spec("1, x, 3 ,", 1), ConcSpec::Levels(vec![1, 3]));
    // a range without ".." falls through to the list form
    assert_eq!(resolve_conc_spec("1,2:x", 1), ConcSpec::Levels(vec![1]));
    // an unknown key falls through as well
    assert_eq!(resolve_conc_spec("1..5:foo=2", 1), ConcSpec::LogSpaced { lo: 10, hi: 1000, n: 7 });
}

#[test]
fn resolve_step_edge_cases() {
    assert_eq!(resolve_conc_spec("10..5:step=1", 1), ConcSpec::Levels(vec![]));
    assert_eq!(resolve_conc_spec("1..3:step=0", 1), ConcSpec::Levels(vec![1, 2, 3]));
    assert_eq!(resolve_conc_spec("0..100:step=bad", 1), ConcSpec::Levels(vec![0, 50, 100]));
}

#[test]
fn step_range_values() {
    assert_eq!(step_range(3, 10, 3), vec![3, 6, 9]);
    assert_eq!(step_range(usize::MAX - 1, usize::MAX, 5), vec![usize::MAX - 1]);
}

#[test]
fn levels_filters() {
    assert_eq!(levels_above(&vec![10, 22, 46, 100], 22), vec![46, 100]);
    assert_eq!(new_levels(&vec![0, 25, 50, 75], &vec![10, 50]), vec![25, 75]);
}

#[test]
fn duration_forms() {
    assert_eq!(parse_duration("5s"), Some(DurationSpec::FractionalSecs("5".to_string())));
    assert_eq!(parse_duration(" 1.5s "), Some(DurationSpec::FractionalSecs("1.5".to_string())));
    assert_eq!(parse_duration("2m"), Some(DurationSpec::Secs(120)));
    assert_eq!(parse_duration("1h"), Some(DurationSpec::Secs(3600)));
    assert_eq!(parse_duration("30"), Some(DurationSpec::Secs(30)));
    assert_eq!(parse_duration("xm"), Some(DurationSpec::Secs(0)));
    assert_eq!(parse_duration("junk"), Some(DurationSpec::Secs(0)));
    assert_eq!(parse_duration("18446744073709551615h"), None);
}

#[test]
fn sweep_args_checked_in_order() {
    assert_eq!(validate_args(0, 0, false, "bad"), Err(SweepArgError::BaselineC));
    assert_eq!(validate_args(1, 0, false, "bad"), Err(SweepArgError::Repeats));
    assert_eq!(validate_args(1, 1, false, "bad"), Err(SweepArgError::KneeRatio));
    assert_eq!(validate_args(1, 1, true, "bad"), Err(SweepArgError::Output));
    assert_eq!(validate_args(1, 1, true, "text"), Ok(()));
    assert_eq!(validate_args(1, 1, true, "json"), Ok(()));
    assert_eq!(validate_args(1, 1, true, "ndjson"), Ok(()));
}

#[test]
fn nearest_cached_concurrency() {
    assert_eq!(nearest_concurrency(&vec![], 5), None);
    assert_eq!(nearest_concurrency(&vec![100, 10, 50], 50), Some(50));
    assert_eq!(nearest_concurrency(&vec![100, 10, 50], 60), Some(50));
    // a tie goes to the smaller concurrency
    assert_eq!(nearest_concurrency(&vec![40, 20], 30), Some(20));
    assert_eq!(nearest_concurrency(&vec![20, 40], 30), Some(20));
}

#[test]
fn meminfo_total() {
    let text = "MemFree:  1000 kB\nMemTotal:       16384000 kB\nSwap: 0 kB\n";
    assert_eq!(mem_total_mb(text), Some(16000));
    assert_eq!(mem_total_mb("Other: 1\n"), None);
    assert_eq!(mem_total_mb("MemTotal: abc kB\nMemTotal: 2048 kB\n"), None);
    assert_eq!(mem_total_mb("MemTotal:2048"), Some(2));
}

#[test]
fn pick_strategy_names() {
    assert_eq!(PickStrategy::Knee.json_name(), "knee");
    assert_eq!(PickStrategy::Score.json_name(), "score");
}

#[test]
fn log_points_become_levels() {
    assert_eq!(dedup_levels(&vec![10, 32, 100, 316, 1000]), vec![10, 32, 100, 316, 1000]);
    assert_eq!(dedup_levels(&vec![1, 1, 2, 2, 2, 3]), vec![1, 2, 3]);
    assert_eq!(dedup_levels(&vec![0, 1, 2]), vec![1, 2]);
    assert_eq!(dedup_levels(&vec![]), Vec::<usize>::new());
    assert_eq!(dedup_levels(&vec![5, 3, 3, 5]), vec![5, 3, 5]);
    let v = dedup_levels(&vec![2, 2, 3, 5, 5, 8]);
    for i in 1..v.len() {
        assert!(v[i] > v[i - 1]);
    }
    assert_eq!((v[0], v[v.len() - 1]), (2, 8));
}

#[test]
fn bracket_center_dropped() {
    assert_eq!(levels_except(&vec![50, 71, 100, 141, 100], 100), vec![50, 71, 141]);
    assert_eq!(levels_except(&vec![1, 2], 3), vec![1, 2]);
}
