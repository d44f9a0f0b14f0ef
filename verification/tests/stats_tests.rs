use vastar::engine::{requests_per_worker, RequestTimings, WorkerLoop, WorkerResult, WorkerStep};
use vastar::stats::{latency_stats, latency_stats_fits, merge_fits_exec, merge_results, PhaseStat};

fn worker(lat: &[(u64, u16)], errors: u64) -> WorkerResult {
    let mut w = WorkerResult::new();
    for &(l, s) in lat {
        w.record_success(s, 10, l, RequestTimings { write_ns: l / 10, wait_ns: l / 2, read_ns: l / 5 });
    }
    for _ in 0..errors {
        w.record_error();
    }
    w
}

#[test]
fn merge_counts_and_sorts() {
    let rs = vec![worker(&[(300, 200), (100, 200)], 1), worker(&[(200, 500)], 0), WorkerResult::from_connect_failures(2)];
    let m = merge_results(&rs);
    assert_eq!(m.total_requests, 6);
    assert_eq!(m.total_errors, 3);
    assert_eq!(m.total_bytes, 30);
    assert_eq!(m.latencies, vec![100, 200, 300]);
    assert_eq!(m.status_dist.get(&200), Some(&2));
    assert_eq!(m.status_dist.get(&500), Some(&1));
    assert_eq!(m.status_dist.len(), 2);
    assert_eq!(m.details.req_write, PhaseStat { avg: 20, min: 10, max: 30 });
    assert_eq!(m.details.resp_wait, PhaseStat { avg: 100, min: 50, max: 150 });
}

#[test]
fn merge_of_nothing() {
    let m = merge_results(&vec![]);
    assert_eq!(m.total_requests, 0);
    assert_eq!(m.details.req_write, PhaseStat { avg: 0, min: 0, max: 0 });
    assert!(latency_stats(&m.latencies).is_none());
}

#[test]
fn percentiles_of_hundred() {
    let v: Vec<u64> = (1..=100).collect();
    let s = latency_stats(&v).unwrap();
    assert_eq!((s.min, s.max, s.avg), (1, 100, 50));
    let p = s.percentiles;
    assert_eq!((p.p10, p.p25, p.p50, p.p75, p.p90, p.p95, p.p99), (11, 26, 51, 76, 91, 96, 100));
    assert_eq!((p.p999, p.p9999), (100, 100));
}

#[test]
fn percentiles_are_ordered() {
    let v: Vec<u64> = vec![5, 5, 7, 9, 20, 21, 40, 1000];
    let s = latency_stats(&v).unwrap();
    let p = s.percentiles;
    let seq = [s.min, p.p10, p.p25, p.p50, p.p75, p.p90, p.p95, p.p99, p.p999, p.p9999, s.max];
    assert!(seq.windows(2).all(|w| w[0] <= w[1]));
    assert!(s.min <= s.avg && s.avg <= s.max);
    assert_eq!(s.avg, 1107 / 8);
}

#[test]
fn overflow_checks() {
    assert!(latency_stats_fits(&vec![1, 2, 3]));
    assert!(latency_stats_fits(&vec![]));
    assert!(!latency_stats_fits(&vec![u64::MAX, 1]));
    assert!(latency_stats_fits(&vec![u64::MAX - 1, 1]));
    let rs = vec![worker(&[(1, 200)], 2), WorkerResult::from_connect_failures(3)];
    assert!(merge_fits_exec(&rs));
    let rs = vec![WorkerResult::from_connect_failures(u64::MAX), WorkerResult::from_connect_failures(1)];
    assert!(!merge_fits_exec(&rs));
    let w = worker(&[(100, 200)], 0);
    assert!(w.can_record_exec(5, &RequestTimings { write_ns: 1, wait_ns: 1, read_ns: 1 }));
    assert!(!w.can_record_exec(u64::MAX, &RequestTimings { write_ns: 1, wait_ns: 1, read_ns: 1 }));
    assert!(!w.can_record_exec(0, &RequestTimings { write_ns: u64::MAX, wait_ns: 0, read_ns: 0 }));
}

#[test]
fn run_counts_every_request() {
    // 5 requests over 2 workers with one connection each; every third request fails.
    let shares = requests_per_worker(5, 2, false);
    let mut loops = Vec::new();
    let mut n = 0u64;
    for share in shares {
        let mut w = WorkerLoop::new(share);
        assert!(w.seed(false));
        loop {
            n += 1;
            let outcome = if n % 3 == 0 { Err(()) } else { Ok((200, 1, n, RequestTimings { write_ns: 1, wait_ns: 1, read_ns: 1 })) };
            match w.on_complete(outcome, false) {
                WorkerStep::SendNext => {}
                _ => break,
            }
        }
        assert_eq!(w.in_flight, 0);
        loops.push(w);
    }
    let results: Vec<WorkerResult> = loops.into_iter().map(|w| w.result).collect();
    let m = merge_results(&results);
    assert_eq!(m.total_requests, 5);
    assert_eq!(m.total_errors, 1);
    assert_eq!(m.latencies, vec![1, 2, 4, 5]);
}
