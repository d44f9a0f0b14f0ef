use vastar::http::{
    is_blank_line, parse_chunk_size_line, parse_header_line, parse_status_line, starts_with_ci,
    BodyPlan, ChunkStep, ChunkedBody, HeaderLine, ResponseHead,
};
use vastar::server::bench_response;

#[test]
fn status_lines_accepted() {
    assert_eq!(parse_status_line(b"HTTP/1.1 200 OK\r\n"), Ok(200));
    assert_eq!(parse_status_line(b"HTTP/1.0 404 Not Found\r\n"), Ok(404));
    assert_eq!(parse_status_line(b"HTTP/1.1 502\r\n"), Ok(502));
    assert_eq!(parse_status_line(b"HTTP/1.1 007 x"), Ok(7));
}

#[test]
fn status_lines_refused() {
    assert_eq!(parse_status_line(b"HTTP/1.1 200"), Err(()));
    assert_eq!(parse_status_line(b"HTTP/1.1 200\r"), Ok(200));
    assert_eq!(parse_status_line(b"HTTP/2.0 200 OK\r\n"), Err(()));
    assert_eq!(parse_status_line(b"HTTP/1.2 200 OK\r\n"), Err(()));
    assert_eq!(parse_status_line(b"HTTP/1.1  200 OK\r\n"), Err(()));
    assert_eq!(parse_status_line(b"HTTP/1.1 2x0 OK\r\n"), Err(()));
    assert_eq!(parse_status_line(b"http/1.1 200 OK\r\n"), Err(()));
    assert_eq!(parse_status_line(b""), Err(()));
}

#[test]
fn header_lines() {
    assert_eq!(parse_header_line(b"\r\n"), Ok(HeaderLine::End));
    assert_eq!(parse_header_line(b"\n"), Ok(HeaderLine::End));
    assert_eq!(parse_header_line(b"Content-Length: 1234\r\n"), Ok(HeaderLine::ContentLength(1234)));
    assert_eq!(parse_header_line(b"content-length:7\n"), Ok(HeaderLine::ContentLength(7)));
    assert_eq!(parse_header_line(b"CONTENT-LENGTH: +12\r\n"), Ok(HeaderLine::ContentLength(12)));
    assert_eq!(parse_header_line(b"Transfer-Encoding: chunked\r\n"), Ok(HeaderLine::Chunked));
    assert_eq!(parse_header_line(b"transfer-encoding:  CHUNKED \r\n"), Ok(HeaderLine::Chunked));
    assert_eq!(parse_header_line(b"Transfer-Encoding: gzip\r\n"), Ok(HeaderLine::Other));
    assert_eq!(parse_header_line(b"Server: x\r\n"), Ok(HeaderLine::Other));
    // too short to be taken for the header it names
    assert_eq!(parse_header_line(b"Content-Length:"), Ok(HeaderLine::Other));
}

#[test]
fn header_lines_refused() {
    assert_eq!(parse_header_line(b"no colon here\r\n"), Err(()));
    assert_eq!(parse_header_line(b"Content-Length: abc\r\n"), Err(()));
    assert_eq!(parse_header_line(b"Content-Length: -1\r\n"), Err(()));
    assert_eq!(parse_header_line(b"Content-Length: 99999999999999999999999\r\n"), Err(()));
    assert_eq!(parse_header_line(b"Content-Length: \xff1\r\n"), Err(()));
    assert_eq!(parse_header_line(b"Transfer-Encoding: \xc3\x28\r\n"), Err(()));
}

#[test]
fn content_length_unicode_whitespace_is_trimmed() {
    // U+00A0 is whitespace to `str::trim`
    assert_eq!(parse_header_line("Content-Length: \u{a0}5\r\n".as_bytes()), Ok(HeaderLine::ContentLength(5)));
}

#[test]
fn chunk_size_lines() {
    assert_eq!(parse_chunk_size_line(b"1a\r\n"), Ok(26));
    assert_eq!(parse_chunk_size_line(b"0\r\n"), Ok(0));
    assert_eq!(parse_chunk_size_line(b"FF;ext=1\r\n"), Ok(255));
    assert_eq!(parse_chunk_size_line(b"  10  \n"), Ok(16));
    assert_eq!(parse_chunk_size_line(b"\r\n"), Err(()));
    assert_eq!(parse_chunk_size_line(b"zz\r\n"), Err(()));
    assert_eq!(parse_chunk_size_line(b"HTTP/1.1 200 OK\r\n"), Err(()));
    assert_eq!(parse_chunk_size_line(b"+1\r\n"), Err(()));
    assert_eq!(parse_chunk_size_line(b"1 a\r\n"), Err(()));
    assert_eq!(parse_chunk_size_line(b"\t1\r\n"), Err(()));
    assert_eq!(parse_chunk_size_line(b"fffffffffffffffffffff\r\n"), Err(()));
    assert_eq!(parse_chunk_size_line(b"\xff\r\n"), Err(()));
}

#[test]
fn blank_lines() {
    assert!(is_blank_line(b"\r\n"));
    assert!(is_blank_line(b"\n"));
    assert!(!is_blank_line(b""));
    assert!(!is_blank_line(b" \r\n"));
    assert!(!is_blank_line(b"x\n"));
}

#[test]
fn case_insensitive_prefix() {
    assert!(starts_with_ci(b"CONTENT-length: 1", b"content-length:"));
    assert!(!starts_with_ci(b"content", b"content-length:"));
    assert!(!starts_with_ci(b"Content-Type: x", b"content-length:"));
}

#[test]
fn body_plans() {
    let mut h = ResponseHead::new();
    assert_eq!(h.body_plan(), BodyPlan::Empty);
    h.apply(HeaderLine::Chunked);
    assert_eq!(h.body_plan(), BodyPlan::Chunked);
    h.apply(HeaderLine::ContentLength(10));
    h.apply(HeaderLine::ContentLength(12));
    h.apply(HeaderLine::Other);
    assert_eq!(h.body_plan(), BodyPlan::Exact(12));
}

#[test]
fn chunked_body_steps() {
    let mut b = ChunkedBody::new();
    assert_eq!(b.on_chunk_size(5), ChunkStep::Drain(7));
    assert_eq!(b.on_chunk_size(3), ChunkStep::Drain(5));
    assert_eq!(b.on_chunk_size(0), ChunkStep::Trailer);
    assert_eq!(b.total, 8);
}

#[test]
fn bench_response_reads_back() {
    let r = bench_response(5);
    assert_eq!(&r[..], &b"HTTP/1.1 200 OK\r\nContent-Length: 5\r\nConnection: keep-alive\r\n\r\nxxxxx"[..]);
    let mut lines = r.split_inclusive(|b| *b == b'\n');
    assert_eq!(parse_status_line(lines.next().unwrap()), Ok(200));
    let mut head = ResponseHead::new();
    loop {
        match parse_header_line(lines.next().unwrap()).unwrap() {
            HeaderLine::End => break,
            h => head.apply(h),
        }
    }
    assert_eq!(head.body_plan(), BodyPlan::Exact(5));
    assert_eq!(lines.next().unwrap(), b"xxxxx");
    assert_eq!(bench_response(0).len(), 62);
}
