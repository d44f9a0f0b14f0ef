//! The benchmark target server: the response it answers every request with, and when a
//! request has been read in full.
use vstd::prelude::*;
use vstd::string::StringSliceAdditionalSpecFns;
use vstd::utf8::{encode_utf8, is_ascii_chars, is_ascii_chars_encode_utf8};
use crate::request::{connection_line, dec_bytes, header_lines, push_decimal, raw_request};
use crate::http::{content_length_prefix, header_line_spec, status_line_code, HeaderLine};
use crate::text::{dec_string, is_dec_digit, lemma_dec_string_parses};

verus! {

/// `buf[i..i + 4]` is `\r\n\r\n`.
pub open spec fn crlfcrlf_at(buf: Seq<u8>, i: int) -> bool {
    buf[i] == 13u8 && buf[i + 1] == 10u8 && buf[i + 2] == 13u8 && buf[i + 3] == 10u8
}

/// Where the search for the end of the headers starts after a read of `n` bytes that
/// brought the total to `total`: three bytes before the new bytes, so that a `\r\n\r\n`
/// split across two reads is still found.
pub open spec fn scan_start(total: int, n: int) -> int {
    if total > n + 3 { total - n - 3 } else { 0 }
}

/// Whether the request in `buf[..total]` is complete after a read of `n` bytes: the
/// bytes scanned hold `\r\n\r\n`, or the buffer is full.
pub fn request_complete(buf: &[u8], total: usize, n: usize) -> (r: bool)
    requires
        n <= total <= buf@.len(),
    ensures
        r == (total >= buf@.len() || exists|i: int|
            scan_start(total as int, n as int) <= i && i + 4 <= total && #[trigger] crlfcrlf_at(buf@, i)),
{
    let start = if total - n > 3 { total - n - 3 } else { 0 };
    let end = if total >= 3 { total - 3 } else { 0 };
    let mut i = start;
    let mut found = false;
    while i < end
        invariant_except_break
            !found,
        invariant
            start <= i,
            start == scan_start(total as int, n as int),
            end == if total >= 3 { total - 3 } else { 0 },
            n <= total <= buf@.len(),
            forall|j: int| start <= j < i && j + 4 <= total ==> !#[trigger] crlfcrlf_at(buf@, j),
        ensures
            found ==> i + 4 <= total && crlfcrlf_at(buf@, i as int),
            !found ==> i >= end,
        decreases end - i,
    {
        if buf[i] == 13 && buf[i + 1] == 10 && buf[i + 2] == 13 && buf[i + 3] == 10 {
            found = true;
            break;
        }
        i += 1;
    }
    proof {
        if found {
            assert(crlfcrlf_at(buf@, i as int));
        } else {
            assert forall|j: int| start <= j && j + 4 <= total implies !#[trigger] crlfcrlf_at(buf@, j) by {
                if j >= i {
                    assert(j < end);
                }
            }
        }
    }
    found || total >= buf.len()
}

/// The last two bytes of a string literal's encoding are `\r\n` when its last two
/// characters are.
proof fn lemma_ascii_ends_crlf(c: Seq<char>)
    requires
        is_ascii_chars(c),
        c.len() >= 2,
        c[c.len() - 2] == '\r',
        c[c.len() - 1] == '\n',
    ensures
        encode_utf8(c).len() == c.len(),
        encode_utf8(c)[c.len() - 2] == 13u8,
        encode_utf8(c)[c.len() - 1] == 10u8,
{
    is_ascii_chars_encode_utf8(c);
    assert(c[c.len() - 2] as u8 == encode_utf8(c)[c.len() - 2]);
    assert(c[c.len() - 1] as u8 == encode_utf8(c)[c.len() - 1]);
}

proof fn lemma_crlf_bytes()
    ensures
        "\r\n".spec_bytes() == seq![13u8, 10u8],
{
    reveal_strlit("\r\n");
    lemma_ascii_ends_crlf("\r\n"@);
    assert("\r\n".spec_bytes() =~= seq![13u8, 10u8]);
}

proof fn lemma_connection_line_ends_crlf(keepalive: bool)
    ensures
        connection_line(keepalive).len() >= 2,
        connection_line(keepalive)[connection_line(keepalive).len() - 2] == 13u8,
        connection_line(keepalive)[connection_line(keepalive).len() - 1] == 10u8,
{
    reveal_strlit("Connection: keep-alive\r\n");
    reveal_strlit("Connection: close\r\n");
    if keepalive {
        lemma_ascii_ends_crlf("Connection: keep-alive\r\n"@);
    } else {
        lemma_ascii_ends_crlf("Connection: close\r\n"@);
    }
}

proof fn lemma_header_lines_end(headers: Seq<(String, String)>)
    ensures
        headers.len() > 0 ==> header_lines(headers).len() >= 2
            && header_lines(headers)[header_lines(headers).len() - 2] == 13u8
            && header_lines(headers)[header_lines(headers).len() - 1] == 10u8,
        headers.len() == 0 ==> header_lines(headers) == Seq::<u8>::empty(),
{
    lemma_crlf_bytes();
}

/// A request without a body, as the client builds it, ends with `\r\n\r\n`: so when
/// the bench server has read all of it, the last read bringing `n >= 1` bytes, the scan
/// of that read finds the end of the head.
pub proof fn lemma_client_request_complete(
    method: Seq<char>,
    host: Seq<char>,
    port: u16,
    path: Seq<char>,
    headers: Seq<(String, String)>,
    keepalive: bool,
    buf: Seq<u8>,
    n: int,
)
    requires
        ({
            let raw = raw_request(method, host, port, path, headers, Seq::empty(), keepalive);
            &&& raw.len() <= buf.len()
            &&& buf.take(raw.len() as int) == raw
            &&& 1 <= n <= raw.len()
        }),
    ensures
        ({
            let total = raw_request(method, host, port, path, headers, Seq::empty(), keepalive).len() as int;
            exists|i: int| scan_start(total, n) <= i && i + 4 <= total && #[trigger] crlfcrlf_at(buf, i)
        }),
{
    let raw = raw_request(method, host, port, path, headers, Seq::empty(), keepalive);
    let crlf = "\r\n".spec_bytes();
    lemma_crlf_bytes();
    lemma_connection_line_ends_crlf(keepalive);
    lemma_header_lines_end(headers);
    let x = crate::request::request_head(method, host, port, path) + crate::request::length_line(0)
        + connection_line(keepalive) + header_lines(headers);
    assert(raw =~= x + crlf + Seq::<u8>::empty());
    assert(raw =~= x + seq![13u8, 10u8]);
    let t = raw.len() as int;
    assert(x.len() >= 2 && x[x.len() - 2] == 13u8 && x[x.len() - 1] == 10u8) by {
        let c = connection_line(keepalive);
        let h = header_lines(headers);
        let y = crate::request::request_head(method, host, port, path) + crate::request::length_line(0);
        assert(x =~= (y + c) + h);
        if headers.len() == 0 {
            assert(x =~= y + c);
        }
    }
    assert(buf[t - 4] == raw[t - 4]);
    assert(buf[t - 3] == raw[t - 3]);
    assert(buf[t - 2] == raw[t - 2]);
    assert(buf[t - 1] == raw[t - 1]);
    assert(crlfcrlf_at(buf, t - 4));
}

/// The bytes `HTTP/1.1 200 OK\r\n`.
pub open spec fn ok_status_line() -> Seq<u8> {
    seq![72u8, 84u8, 84u8, 80u8, 47u8, 49u8, 46u8, 49u8, 32u8, 50u8, 48u8, 48u8, 32u8, 79u8, 75u8, 13u8, 10u8]
}

/// The bytes `Content-Length: `.
pub open spec fn length_prefix_bytes() -> Seq<u8> {
    seq![67u8, 111u8, 110u8, 116u8, 101u8, 110u8, 116u8, 45u8, 76u8, 101u8, 110u8, 103u8, 116u8, 104u8, 58u8, 32u8]
}

/// The header line `Content-Length: <n>\r\n`.
pub open spec fn length_header(n: nat) -> Seq<u8> {
    length_prefix_bytes() + dec_bytes(n) + seq![13u8, 10u8]
}

/// The bytes `Connection: keep-alive\r\n`.
pub open spec fn keepalive_header() -> Seq<u8> {
    seq![
        67u8, 111u8, 110u8, 110u8, 101u8, 99u8, 116u8, 105u8, 111u8, 110u8, 58u8, 32u8,
        107u8, 101u8, 101u8, 112u8, 45u8, 97u8, 108u8, 105u8, 118u8, 101u8, 13u8, 10u8,
    ]
}

/// The response to every request: `200 OK`, the body length, keep-alive, an empty line
/// and a body of `n` bytes `x`.
pub open spec fn bench_response_spec(n: nat) -> Seq<u8> {
    ok_status_line() + length_header(n) + keepalive_header() + seq![13u8, 10u8] + Seq::new(
        n,
        |i: int| 120u8,
    )
}

fn extend_bytes(buf: &mut Vec<u8>, b: &[u8])
    ensures
        final(buf)@ == old(buf)@ + b@,
{
    buf.extend_from_slice(b);
}

/// Builds the bench server's response for a body of `body_size` bytes.
pub fn bench_response(body_size: usize) -> (r: Vec<u8>)
    ensures
        r@ == bench_response_spec(body_size as nat),
{
    let status: [u8; 17] = [72, 84, 84, 80, 47, 49, 46, 49, 32, 50, 48, 48, 32, 79, 75, 13, 10];
    let prefix: [u8; 16] = [67, 111, 110, 116, 101, 110, 116, 45, 76, 101, 110, 103, 116, 104, 58, 32];
    let keepalive: [u8; 24] = [
        67, 111, 110, 110, 101, 99, 116, 105, 111, 110, 58, 32, 107, 101, 101, 112, 45, 97, 108, 105,
        118, 101, 13, 10,
    ];
    let crlf: [u8; 2] = [13, 10];
    let mut r: Vec<u8> = Vec::new();
    extend_bytes(&mut r, &status);
    extend_bytes(&mut r, &prefix);
    push_decimal(&mut r, body_size as u64);
    extend_bytes(&mut r, &crlf);
    extend_bytes(&mut r, &keepalive);
    extend_bytes(&mut r, &crlf);
    let ghost head = r@;
    assert(head =~= ok_status_line() + length_header(body_size as nat) + keepalive_header() + seq![13u8, 10u8]);
    let mut i: usize = 0;
    while i < body_size
        invariant
            i <= body_size,
            r@ == head + Seq::new(i as nat, |k: int| 120u8),
        decreases body_size - i,
    {
        r.push(120u8);
        i += 1;
        assert(r@ =~= head + Seq::new(i as nat, |k: int| 120u8));
    }
    r
}

/// A line as the client reads it: up to and including its first `\n`.
pub open spec fn is_single_line(l: Seq<u8>) -> bool {
    &&& l.len() > 0
    &&& l.last() == 10u8
    &&& forall|i: int| 0 <= i < l.len() - 1 ==> l[i] != 10u8
}

proof fn lemma_dec_bytes_digits(n: nat)
    ensures
        dec_bytes(n).len() == dec_string(n).len(),
        forall|i: int| 0 <= i < dec_bytes(n).len() ==> #[trigger] dec_bytes(n)[i] == dec_string(n)[i] as u8,
        forall|i: int| 0 <= i < dec_bytes(n).len() ==> 48 <= #[trigger] dec_bytes(n)[i] <= 57,
    decreases n,
{
    if n >= 10 {
        lemma_dec_bytes_digits(n / 10);
        let p = dec_bytes(n / 10);
        let q = dec_string(n / 10);
        assert forall|i: int| 0 <= i < dec_bytes(n).len() implies #[trigger] dec_bytes(n)[i] == dec_string(n)[i]
            as u8 && 48 <= dec_bytes(n)[i] <= 57 by {
            if i < p.len() {
                assert(dec_bytes(n)[i] == p[i]);
                assert(dec_string(n)[i] == q[i]);
            }
        }
    }
}

/// What the client reads from the bench server's response, line by line as it reads
/// lines: the status line gives 200, the next header line announces the body length,
/// the next one says nothing the body reader needs, the empty line ends the head; the
/// body that follows is exactly as long as announced.
pub proof fn lemma_bench_response_read_back(n: usize)
    ensures
        bench_response_spec(n as nat) == ok_status_line() + length_header(n as nat) + keepalive_header()
            + seq![13u8, 10u8] + Seq::new(n as nat, |i: int| 120u8),
        is_single_line(ok_status_line()),
        is_single_line(length_header(n as nat)),
        is_single_line(keepalive_header()),
        is_single_line(seq![13u8, 10u8]),
        status_line_code(ok_status_line()) == Some(200u16),
        header_line_spec(length_header(n as nat)) == Some(HeaderLine::ContentLength(n)),
        header_line_spec(keepalive_header()) == Some(HeaderLine::Other),
        header_line_spec(seq![13u8, 10u8]) == Some(HeaderLine::End),
{
    // the status line
    let st = ok_status_line();
    assert(st.take(7) =~= crate::http::http1_prefix());
    // the length header is the encoding of its characters
    lemma_dec_bytes_digits(n as nat);
    lemma_dec_string_parses(n as nat, usize::MAX as nat);
    let d = dec_string(n as nat);
    let c = content_length_prefix() + d + seq!['\r', '\n'];
    let h = length_header(n as nat);
    assert(is_ascii_chars(c)) by {
        assert forall|i: int| 0 <= i < c.len() implies '\0' <= #[trigger] c[i] <= '\u{7f}' by {
            if 16 <= i < 16 + d.len() {
                assert(c[i] == d[i - 16]);
                assert(is_dec_digit(d[i - 16]));
            }
        }
    }
    is_ascii_chars_encode_utf8(c);
    assert(h.len() == c.len());
    assert forall|i: int| 0 <= i < h.len() implies h[i] == encode_utf8(c)[i] by {
        assert(encode_utf8(c)[i] == c[i] as u8);
        if 16 <= i < 16 + d.len() {
            assert(h[i] == dec_bytes(n as nat)[i - 16]);
            assert(c[i] == d[i - 16]);
        }
    }
    assert(h =~= encode_utf8(c));
    crate::http::lemma_content_length_read_back(n);
    assert forall|i: int| 0 <= i < h.len() - 1 implies h[i] != 10u8 by {
        if 16 <= i < 16 + d.len() {
            assert(h[i] == dec_bytes(n as nat)[i - 16]);
        }
    }
    // the keep-alive header is neither a length nor a transfer encoding
    let k = keepalive_header();
    assert(k.contains(58u8)) by {
        assert(k[10] == 58u8);
    }
    assert(!crate::http::starts_with_ci_spec(k, crate::http::content_length_name())) by {
        assert(crate::http::ascii_lower(k[3]) != crate::http::content_length_name()[3]);
    }
    assert(!crate::http::starts_with_ci_spec(k, crate::http::transfer_encoding_name())) by {
        assert(crate::http::ascii_lower(k[0]) != crate::http::transfer_encoding_name()[0]);
    }
    assert(!crate::http::is_blank_line_spec(k));
    assert(crate::http::is_blank_line_spec(seq![13u8, 10u8]));
}

} // verus!
