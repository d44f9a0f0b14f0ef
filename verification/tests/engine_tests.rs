use vastar::engine::{
    connect_limit, distribute_round_robin, requests_per_worker, worker_count, PhaseAcc, Progress,
    RequestBudget, RequestTimings, WorkerLoop, WorkerResult, WorkerStep,
};
use vastar::request::{build_raw_request, parse_url};
use vastar::server::request_complete;
use std::sync::atomic::Ordering;

#[test]
fn phase_acc_records() {
    let mut a = PhaseAcc::new();
    assert_eq!((a.sum, a.min, a.max, a.count), (0, u64::MAX, 0, 0));
    for ns in [30u64, 10, 20] {
        a.record(ns);
    }
    assert_eq!((a.sum, a.min, a.max, a.count), (60, 10, 30, 3));
}

#[test]
fn progress_starts_at_zero() {
    let p = Progress::new();
    assert_eq!(p.completed.load(Ordering::Relaxed), 0);
    assert_eq!(p.errors.load(Ordering::Relaxed), 0);
    assert_eq!(p.total_ns.load(Ordering::Relaxed), 0);
}

#[test]
fn worker_result_records() {
    let mut w = WorkerResult::new();
    w.record_success(200, 100, 5000, RequestTimings { write_ns: 10, wait_ns: 4000, read_ns: 990 });
    w.record_success(503, 0, 7000, RequestTimings { write_ns: 20, wait_ns: 6000, read_ns: 980 });
    w.record_error();
    assert_eq!(w.latencies, vec![5000, 7000]);
    assert_eq!(w.status_codes, vec![200, 503]);
    assert_eq!(w.bytes_recv, 100);
    assert_eq!(w.errors, 1);
    assert_eq!((w.write.sum, w.write.min, w.write.max, w.write.count), (30, 10, 20, 2));
    assert_eq!((w.read.sum, w.read.min, w.read.max), (1970, 980, 990));
    let f = WorkerResult::from_connect_failures(7);
    assert_eq!(f.errors, 7);
    assert!(f.latencies.is_empty());
}

#[test]
fn budget_stops_at_limit() {
    let mut b = RequestBudget::new(2);
    assert!(b.try_take());
    assert!(b.try_take());
    assert!(!b.try_take());
    assert_eq!(b.sent, 2);
}

#[test]
fn worker_topology() {
    assert_eq!(worker_count(50, 16), 1);
    assert_eq!(worker_count(200, 16), 2);
    assert_eq!(worker_count(500, 16), 4);
    assert_eq!(worker_count(1000, 16), 8);
    assert_eq!(worker_count(2000, 16), 16);
    assert_eq!(worker_count(5000, 16), 32);
    assert_eq!(worker_count(128, 16), 1);
    assert_eq!(worker_count(129, 16), 2);
    assert_eq!(worker_count(300, 1), 2);
    assert_eq!(worker_count(10000, 16), 32);
    assert_eq!(worker_count(1, 16), 1);
    assert_eq!(worker_count(0, 16), 0);
    assert_eq!(connect_limit(50), 50);
    assert_eq!(connect_limit(5000), 256);
}

#[test]
fn requests_split_over_workers() {
    let v = requests_per_worker(10, 3, false);
    assert_eq!(v, vec![4, 3, 3]);
    assert_eq!(v.iter().sum::<usize>(), 10);
    assert_eq!(requests_per_worker(2, 4, false), vec![1, 1, 0, 0]);
    assert_eq!(requests_per_worker(10, 2, true), vec![usize::MAX, usize::MAX]);
}

#[test]
fn round_robin_distribution() {
    let out = distribute_round_robin(vec!['a', 'b', 'c', 'd', 'e'], 2);
    assert_eq!(out, vec![vec!['a', 'c', 'e'], vec!['b', 'd']]);
    let out = distribute_round_robin(vec![1, 2], 3);
    assert_eq!(out, vec![vec![1], vec![2], vec![]]);
}

#[test]
fn url_parts() {
    assert_eq!(parse_url("http://localhost:8080/api/x"), ("localhost".to_string(), 8080, "/api/x".to_string()));
    assert_eq!(parse_url("http://example.com"), ("example.com".to_string(), 80, "/".to_string()));
    assert_eq!(parse_url("example.com:81"), ("example.com".to_string(), 81, "/".to_string()));
    assert_eq!(parse_url("http://h:notaport/p"), ("h".to_string(), 80, "/p".to_string()));
    assert_eq!(parse_url("http://h:70000/"), ("h".to_string(), 80, "/".to_string()));
    assert_eq!(parse_url("http://[::1]:9000/a:b"), ("[::1]".to_string(), 9000, "/a:b".to_string()));
}

#[test]
fn raw_request_bytes() {
    let headers = vec![("content-type".to_string(), "text/html".to_string())];
    let b = build_raw_request("GET", "localhost", 80, "/", &headers, b"", true);
    assert_eq!(
        &b[..],
        &b"GET / HTTP/1.1\r\nHost: localhost\r\nConnection: keep-alive\r\ncontent-type: text/html\r\n\r\n"[..],
    );
    let b = build_raw_request("POST", "h", 8080, "/api", &[], b"{}", false);
    assert_eq!(
        &b[..],
        &b"POST /api HTTP/1.1\r\nHost: h:8080\r\nContent-Length: 2\r\nConnection: close\r\n\r\n{}"[..],
    );
}

#[test]
fn request_end_detection() {
    let mut buf = [0u8; 16];
    buf[..6].copy_from_slice(b"GET /\r");
    assert!(!request_complete(&buf, 6, 6));
    buf[6..9].copy_from_slice(b"\n\r\n");
    // the terminator straddles the two reads
    assert!(request_complete(&buf, 9, 3));
    assert!(request_complete(&buf, 16, 7));
}

#[test]
fn built_request_seen_complete_by_server() {
    let headers = vec![("accept".to_string(), "*/*".to_string())];
    let req = build_raw_request("GET", "h", 9000, "/x", &headers, b"", true);
    let mut buf = [0u8; 4096];
    buf[..req.len()].copy_from_slice(&req[..]);
    // Read in two pieces: the first leaves out the last byte.
    assert!(!request_complete(&buf, req.len() - 1, req.len() - 1));
    assert!(request_complete(&buf, req.len(), 1));
}

fn timings(n: u64) -> RequestTimings {
    RequestTimings { write_ns: n, wait_ns: 2 * n, read_ns: 3 * n }
}

#[test]
fn worker_loop_keeps_to_its_share() {
    let mut w = WorkerLoop::new(3);
    // two pre-opened connections: both get a request
    assert!(w.seed(false));
    assert!(w.seed(false));
    assert_eq!(w.in_flight, 2);
    // a completion frees a connection for the third request
    assert_eq!(w.on_complete(Ok((200, 10, 100, timings(1))), false), WorkerStep::SendNext);
    // the share is used up: later completions only wait
    assert_eq!(w.on_complete(Err(()), false), WorkerStep::Wait);
    assert_eq!(w.on_complete(Ok((404, 5, 300, timings(2))), false), WorkerStep::Wait);
    assert_eq!(w.in_flight, 0);
    assert_eq!(w.budget.sent, 3);
    assert_eq!(w.result.latencies, vec![100, 300]);
    assert_eq!(w.result.status_codes, vec![200, 404]);
    assert_eq!(w.result.errors, 1);
    assert_eq!(w.result.bytes_recv, 15);
    assert_eq!((w.result.write.sum, w.result.read.max), (3, 6));
}

#[test]
fn worker_loop_stops() {
    let mut w = WorkerLoop::new(10);
    assert!(!w.seed(true));
    assert!(w.seed(false));
    assert_eq!(w.on_complete(Ok((200, 1, 7, timings(1))), true), WorkerStep::Stop);
    assert_eq!(w.in_flight, 0);
    assert_eq!(w.result.latencies, vec![7]);
    let mut w = WorkerLoop::new(0);
    assert!(!w.seed(false));
}
