use vastar::report::{report_counts, sort_status_rows};

#[test]
fn status_rows_in_code_order() {
    let rows = vec![(503, 2), (200, 90), (404, 5), (201, 3)];
    assert_eq!(sort_status_rows(&rows), vec![(200, 90), (201, 3), (404, 5), (503, 2)]);
    assert_eq!(sort_status_rows(&vec![]), Vec::<(u16, usize)>::new());
    assert_eq!(sort_status_rows(&vec![(200, 1)]), vec![(200, 1)]);
}

#[test]
fn counts_treat_non_2xx_as_failures() {
    let rows = vec![(200, 90), (404, 5), (503, 2), (201, 3)];
    let c = report_counts(103, 3, 10_300, &rows).unwrap();
    assert_eq!(c.answered, 100);
    assert_eq!(c.size_per_request, 100);
    assert_eq!(c.failures, 3 + 5 + 2);
    assert_eq!(c.successful, 93);
}

#[test]
fn counts_edge_cases() {
    let c = report_counts(0, 0, 0, &vec![]).unwrap();
    assert_eq!((c.answered, c.size_per_request, c.failures, c.successful), (0, 0, 0, 0));
    // every request failed
    let c = report_counts(4, 4, 0, &vec![]).unwrap();
    assert_eq!((c.answered, c.failures, c.successful), (0, 4, 0));
    // failures above the requests leave no successes
    let c = report_counts(2, 1, 7, &vec![(500, 5)]).unwrap();
    assert_eq!((c.size_per_request, c.failures, c.successful), (3, 6, 0));
    // more errors than requests, or failures beyond usize, are refused
    assert!(report_counts(1, 2, 0, &vec![]).is_none());
    assert!(report_counts(10, 1, 0, &vec![(500, usize::MAX)]).is_none());
}
