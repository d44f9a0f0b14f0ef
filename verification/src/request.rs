//! Target URL splitting and the raw HTTP/1.1 request that every connection sends.
use vstd::prelude::*;
use vstd::string::*;
use vstd::utf8::encode_utf8;
use crate::text::{dec_string, parse_unsigned, parse_unsigned_range, chars_of, is_dec_digit, lemma_dec_string_parses};

verus! {

/// The outside byte buffer type that carries the request.
#[verifier::external_type_specification]
#[verifier::external_body]
pub struct ExBytes(bytes::Bytes);

/// The bytes a `Bytes` buffer holds.
pub uninterp spec fn bytes_content(b: bytes::Bytes) -> Seq<u8>;

/// Moves a vector into a `Bytes` buffer (`Bytes::from(Vec<u8>)`).
///
/// Trusted: claims of `<Bytes as From<Vec<u8>>>::from` that the buffer holds exactly the
/// vector's bytes, as its source shows (it takes over the vector's allocation).
#[verifier::external_body]
fn bytes_from_vec(v: Vec<u8>) -> (b: bytes::Bytes)
    ensures
        bytes_content(b) == v@,
{
    bytes::Bytes::from(v)
}

/// The characters `http://`.
pub open spec fn http_scheme() -> Seq<char> {
    seq!['h', 't', 't', 'p', ':', '/', '/']
}

/// The index of the first `c` in `s`, or `s.len()` when there is none.
pub open spec fn index_of_first(s: Seq<char>, c: char) -> int
    decreases s.len(),
{
    if s.len() == 0 {
        0
    } else if s[0] == c {
        0
    } else {
        1 + index_of_first(s.drop_first(), c)
    }
}

/// The index of the last `c` in `s`, or `-1` when there is none.
pub open spec fn index_of_last(s: Seq<char>, c: char) -> int
    decreases s.len(),
{
    if s.len() == 0 {
        -1
    } else if s.last() == c {
        s.len() - 1
    } else {
        index_of_last(s.drop_last(), c)
    }
}

/// The URL without a leading `http://`.
pub open spec fn strip_scheme(url: Seq<char>) -> Seq<char> {
    if url.len() >= 7 && url.take(7) == http_scheme() {
        url.skip(7)
    } else {
        url
    }
}

/// Host and port part: everything before the first `/`.
pub open spec fn url_authority(url: Seq<char>) -> Seq<char> {
    let s = strip_scheme(url);
    s.take(index_of_first(s, '/'))
}

/// The path: from the first `/` on, or `/` when there is none.
pub open spec fn url_path(url: Seq<char>) -> Seq<char> {
    let s = strip_scheme(url);
    let i = index_of_first(s, '/');
    if i < s.len() {
        s.skip(i)
    } else {
        seq!['/']
    }
}

/// The host: the authority up to its last `:` (all of it when there is none).
pub open spec fn url_host(url: Seq<char>) -> Seq<char> {
    let a = url_authority(url);
    let j = index_of_last(a, ':');
    if j >= 0 {
        a.take(j)
    } else {
        a
    }
}

/// The port: what follows the last `:` of the authority when it parses as a `u16`,
/// and 80 otherwise.
pub open spec fn url_port(url: Seq<char>) -> u16 {
    let a = url_authority(url);
    let j = index_of_last(a, ':');
    if j >= 0 {
        match parse_unsigned(a.skip(j + 1), u16::MAX as nat) {
            Some(p) => p as u16,
            None => 80,
        }
    } else {
        80
    }
}

/// The first index of `c` lies in `0..=s.len()`.
pub proof fn lemma_index_of_first_nonneg(s: Seq<char>, c: char)
    ensures
        0 <= index_of_first(s, c) <= s.len(),
    decreases s.len(),
{
    if s.len() > 0 && s[0] != c {
        lemma_index_of_first_nonneg(s.drop_first(), c);
    }
}

/// `index_of_first` is the position `k` of the first `c`, when `k` is one.
pub(crate) proof fn lemma_index_of_first_at(s: Seq<char>, c: char, k: int)
    requires
        0 <= k <= s.len(),
        forall|j: int| 0 <= j < k ==> s[j] != c,
        k == s.len() || s[k] == c,
    ensures
        index_of_first(s, c) == k,
    decreases k,
{
    if k > 0 {
        lemma_index_of_first_at(s.drop_first(), c, k - 1);
    }
}

proof fn lemma_index_of_last(s: Seq<char>, c: char, k: int)
    requires
        -1 <= k < s.len(),
        forall|j: int| k < j < s.len() ==> s[j] != c,
        k == -1 || s[k] == c,
    ensures
        index_of_last(s, c) == k,
    decreases s.len(),
{
    if s.len() > 0 && k < s.len() - 1 {
        lemma_index_of_last(s.drop_last(), c, k);
    }
}

/// Splits a target URL into host, port and path: an optional `http://` is dropped, the
/// path starts at the first `/` (`/` when there is none), and a port follows the last
/// `:` before the path (80 when there is none or it does not parse).
pub fn parse_url(url: &str) -> (r: (String, u16, String))
    ensures
        r.0@ == url_host(url@),
        r.1 == url_port(url@),
        r.2@ == url_path(url@),
{
    let v = chars_of(url);
    let n = v.len();
    let mut has_scheme = n >= 7;
    if has_scheme {
        has_scheme = v[0] == 'h' && v[1] == 't' && v[2] == 't' && v[3] == 'p' && v[4] == ':'
            && v[5] == '/' && v[6] == '/';
    }
    proof {
        if n >= 7 {
            if has_scheme {
                assert(url@.take(7) =~= http_scheme());
            } else {
                assert(url@.take(7) != http_scheme()) by {
                    if url@.take(7) == http_scheme() {
                        assert(url@.take(7)[0] == v@[0]);
                        assert(url@.take(7)[1] == v@[1]);
                        assert(url@.take(7)[2] == v@[2]);
                        assert(url@.take(7)[3] == v@[3]);
                        assert(url@.take(7)[4] == v@[4]);
                        assert(url@.take(7)[5] == v@[5]);
                        assert(url@.take(7)[6] == v@[6]);
                    }
                }
            }
        }
    }
    let start: usize = if has_scheme { 7 } else { 0 };
    let ghost s = v@.subrange(start as int, n as int);
    assert(s == strip_scheme(url@)) by {
        if has_scheme {
            assert(url@.skip(7) =~= s);
        } else {
            assert(url@ =~= s);
        }
    }
    // the first '/'
    let mut i = start;
    while i < n && v[i] != '/'
        invariant
            start <= i <= n == v@.len(),
            s == v@.subrange(start as int, n as int),
            forall|j: int| 0 <= j < i - start ==> s[j] != '/',
        decreases n - i,
    {
        i += 1;
    }
    proof {
        if i < n {
            assert(s[i - start] == v@[i as int]);
        }
        lemma_index_of_first_at(s, '/', i - start);
    }
    let path: String = if i < n {
        let p = url.substring_char(i, n);
        assert(p@ =~= s.skip(i - start));
        p.to_owned()
    } else {
        let p = String::from_str("/");
        proof {
            reveal_strlit("/");
        }
        assert(p@ =~= seq!['/']);
        p
    };
    let ghost a = s.take(i - start);
    assert(a =~= v@.subrange(start as int, i as int));
    // the last ':' of the authority
    let mut k = i;
    while k > start && v[k - 1] != ':'
        invariant
            start <= k <= i <= n == v@.len(),
            a == v@.subrange(start as int, i as int),
            forall|j: int| k - start <= j < a.len() ==> a[j] != ':',
        decreases k - start,
    {
        k -= 1;
    }
    if k > start {
        // v[k - 1] is the last ':'
        proof {
            assert(a[k - 1 - start] == v@[k - 1]);
            lemma_index_of_last(a, ':', k - 1 - start);
            assert(a.skip(k - start) =~= v@.subrange(k as int, i as int));
        }
        let host = url.substring_char(start, k - 1);
        assert(host@ =~= a.take(k - 1 - start));
        let port = match parse_unsigned_range(&v, k, i, u16::MAX as u64) {
            Some(p) => p as u16,
            None => 80,
        };
        (host.to_owned(), port, path)
    } else {
        proof {
            lemma_index_of_last(a, ':', -1);
        }
        let host = url.substring_char(start, i);
        assert(host@ =~= a);
        (host.to_owned(), 80, path)
    }
}

/// The decimal digits of `n` as ASCII bytes, as `n.to_string().as_bytes()` gives them.
pub open spec fn dec_bytes(n: nat) -> Seq<u8>
    decreases n,
{
    if n < 10 {
        seq![(n + 48) as u8]
    } else {
        dec_bytes(n / 10).push(((n % 10) + 48) as u8)
    }
}

/// Appends the decimal digits of `n`.
pub fn push_decimal(buf: &mut Vec<u8>, n: u64)
    ensures
        final(buf)@ == old(buf)@ + dec_bytes(n as nat),
    decreases n,
{
    if n >= 10 {
        push_decimal(buf, n / 10);
    }
    buf.push(((n % 10) + 48) as u8);
    proof {
        if n < 10 {
            assert(dec_bytes(n as nat) =~= seq![(n + 48) as u8]);
        }
    }
}

/// The header lines `k: v\r\n` of `headers`, in order.
pub open spec fn header_lines(headers: Seq<(String, String)>) -> Seq<u8>
    decreases headers.len(),
{
    if headers.len() == 0 {
        Seq::empty()
    } else {
        header_lines(headers.drop_last()) + encode_utf8(headers.last().0@) + ": ".spec_bytes()
            + encode_utf8(headers.last().1@) + "\r\n".spec_bytes()
    }
}

/// The request line and the `Host` header (with `:port` unless the port is 80).
pub open spec fn request_head(method: Seq<char>, host: Seq<char>, port: u16, path: Seq<char>) -> Seq<u8> {
    encode_utf8(method) + " ".spec_bytes() + encode_utf8(path) + " HTTP/1.1\r\n".spec_bytes()
        + "Host: ".spec_bytes() + encode_utf8(host) + port_suffix(port) + "\r\n".spec_bytes()
}

/// `:port`, or nothing for port 80.
pub open spec fn port_suffix(port: u16) -> Seq<u8> {
    if port != 80 {
        ":".spec_bytes() + dec_bytes(port as nat)
    } else {
        Seq::empty()
    }
}

/// `Content-Length: n\r\n` for a body of `n > 0` bytes, nothing for an empty body.
pub open spec fn length_line(body_len: nat) -> Seq<u8> {
    if body_len > 0 {
        "Content-Length: ".spec_bytes() + dec_bytes(body_len) + "\r\n".spec_bytes()
    } else {
        Seq::empty()
    }
}

/// The `Connection` header.
pub open spec fn connection_line(keepalive: bool) -> Seq<u8> {
    if keepalive {
        "Connection: keep-alive\r\n".spec_bytes()
    } else {
        "Connection: close\r\n".spec_bytes()
    }
}

/// The request line, `Host`, `Content-Length` (when there is a body), `Connection`,
/// the headers, an empty line and the body.
pub open spec fn raw_request(
    method: Seq<char>,
    host: Seq<char>,
    port: u16,
    path: Seq<char>,
    headers: Seq<(String, String)>,
    body: Seq<u8>,
    keepalive: bool,
) -> Seq<u8> {
    request_head(method, host, port, path) + length_line(body.len()) + connection_line(keepalive)
        + header_lines(headers) + "\r\n".spec_bytes() + body
}

fn extend_str(buf: &mut Vec<u8>, s: &str)
    ensures
        final(buf)@ == old(buf)@ + s.spec_bytes(),
{
    buf.extend_from_slice(s.as_bytes());
}

/// Builds the raw HTTP/1.1 request once; every request of the run sends these bytes.
pub fn build_raw_request(
    method: &str,
    host: &str,
    port: u16,
    path: &str,
    headers: &[(String, String)],
    body: &[u8],
    keepalive: bool,
) -> (r: bytes::Bytes)
    ensures
        bytes_content(r) == raw_request(method@, host@, port, path@, headers@, body@, keepalive),
{
    let mut buf: Vec<u8> = Vec::new();
    extend_str(&mut buf, method);
    extend_str(&mut buf, " ");
    extend_str(&mut buf, path);
    extend_str(&mut buf, " HTTP/1.1\r\n");
    extend_str(&mut buf, "Host: ");
    extend_str(&mut buf, host);
    let ghost b1 = buf@;
    if port != 80 {
        extend_str(&mut buf, ":");
        push_decimal(&mut buf, port as u64);
    }
    assert(buf@ =~= b1 + port_suffix(port));
    extend_str(&mut buf, "\r\n");
    let ghost head = buf@;
    assert(head =~= request_head(method@, host@, port, path@));
    if body.len() > 0 {
        extend_str(&mut buf, "Content-Length: ");
        push_decimal(&mut buf, body.len() as u64);
        extend_str(&mut buf, "\r\n");
    }
    assert(buf@ =~= head + length_line(body@.len()));
    let ghost b2 = buf@;
    if keepalive {
        extend_str(&mut buf, "Connection: keep-alive\r\n");
    } else {
        extend_str(&mut buf, "Connection: close\r\n");
    }
    assert(buf@ =~= b2 + connection_line(keepalive));
    let ghost before_headers = buf@;
    let mut i: usize = 0;
    assert(header_lines(headers@.take(0)) =~= Seq::<u8>::empty());
    while i < headers.len()
        invariant
            i <= headers@.len(),
            buf@ == before_headers + header_lines(headers@.take(i as int)),
        decreases headers@.len() - i,
    {
        let ghost prev = buf@;
        extend_str(&mut buf, headers[i].0.as_str());
        extend_str(&mut buf, ": ");
        extend_str(&mut buf, headers[i].1.as_str());
        extend_str(&mut buf, "\r\n");
        proof {
            let t = headers@.take(i + 1);
            assert(t.drop_last() =~= headers@.take(i as int));
            assert(t.last() == headers@[i as int]);
            assert(buf@ =~= before_headers + header_lines(t));
        }
        i += 1;
    }
    assert(headers@.take(headers@.len() as int) =~= headers@);
    let ghost b3 = buf@;
    extend_str(&mut buf, "\r\n");
    buf.extend_from_slice(body);
    assert(buf@ =~= b3 + "\r\n".spec_bytes() + body@);
    bytes_from_vec(buf)
}

/// A URL put together from a host (without `:` or `/`), a port and a path (starting
/// with `/`) splits back into that host, port and path.
pub proof fn lemma_url_round_trip(host: Seq<char>, port: u16, path: Seq<char>)
    requires
        forall|i: int| 0 <= i < host.len() ==> #[trigger] host[i] != ':' && host[i] != '/',
        path.len() >= 1,
        path[0] == '/',
    ensures
        ({
            let url = http_scheme() + host + seq![':'] + dec_string(port as nat) + path;
            &&& url_host(url) == host
            &&& url_port(url) == port
            &&& url_path(url) == path
        }),
{
    let d = dec_string(port as nat);
    lemma_dec_string_parses(port as nat, u16::MAX as nat);
    let url = http_scheme() + host + seq![':'] + d + path;
    assert(url.take(7) =~= http_scheme());
    let s = host + seq![':'] + d + path;
    assert(url.skip(7) =~= s);
    assert(strip_scheme(url) == s);
    let k = host.len() + 1 + d.len() as int;
    assert forall|j: int| 0 <= j < k implies s[j] != '/' by {
        if j < host.len() {
            assert(s[j] == host[j]);
        } else if j > host.len() {
            assert(s[j] == d[j - host.len() - 1]);
            assert(is_dec_digit(d[j - host.len() - 1]));
        }
    }
    assert(s[k] == path[0]);
    lemma_index_of_first_at(s, '/', k);
    let a = host + seq![':'] + d;
    assert(s.take(k) =~= a);
    assert(s.skip(k) =~= path);
    assert forall|j: int| host.len() < j < a.len() implies a[j] != ':' by {
        assert(a[j] == d[j - host.len() - 1]);
        assert(is_dec_digit(d[j - host.len() - 1]));
    }
    assert(a[host.len() as int] == ':');
    lemma_index_of_last(a, ':', host.len() as int);
    assert(a.take(host.len() as int) =~= host);
    assert(a.skip(host.len() as int + 1) =~= d);
}

/// The header block grows by exactly one line per header: after the lines of `headers`
/// comes `k: v\r\n` of the next header.
pub proof fn lemma_header_lines_push(headers: Seq<(String, String)>, x: (String, String))
    ensures
        header_lines(headers.push(x)) == header_lines(headers) + encode_utf8(x.0@) + ": ".spec_bytes()
            + encode_utf8(x.1@) + "\r\n".spec_bytes(),
{
    assert(headers.push(x).drop_last() =~= headers);
    assert(headers.push(x).last() == x);
}

proof fn lemma_header_lines_concat(a: Seq<(String, String)>, b: Seq<(String, String)>)
    ensures
        header_lines(a + b) == header_lines(a) + header_lines(b),
    decreases b.len(),
{
    if b.len() == 0 {
        assert(a + b =~= a);
        assert(header_lines(a) + Seq::<u8>::empty() =~= header_lines(a));
    } else {
        lemma_header_lines_concat(a, b.drop_last());
        assert((a + b).drop_last() =~= a + b.drop_last());
        assert((a + b).last() == b.last());
        let x = b.last();
        let line = encode_utf8(x.0@) + ": ".spec_bytes() + encode_utf8(x.1@) + "\r\n".spec_bytes();
        assert(header_lines(a) + header_lines(b.drop_last()) + line =~= header_lines(a) + (header_lines(
            b.drop_last(),
        ) + line));
    }
}

/// Every header given goes into the request, in order: the line `k: v\r\n` of header
/// `i` stands in the raw request right after the head, the length and connection lines
/// and the lines of the headers before it.
pub proof fn lemma_every_header_sent(
    method: Seq<char>,
    host: Seq<char>,
    port: u16,
    path: Seq<char>,
    headers: Seq<(String, String)>,
    body: Seq<u8>,
    keepalive: bool,
    i: int,
)
    requires
        0 <= i < headers.len(),
    ensures
        ({
            let raw = raw_request(method, host, port, path, headers, body, keepalive);
            let line = encode_utf8(headers[i].0@) + ": ".spec_bytes() + encode_utf8(headers[i].1@)
                + "\r\n".spec_bytes();
            let off = request_head(method, host, port, path).len() + length_line(body.len()).len()
                + connection_line(keepalive).len() + header_lines(headers.take(i)).len();
            raw.subrange(off as int, (off + line.len()) as int) == line
        }),
{
    let line = encode_utf8(headers[i].0@) + ": ".spec_bytes() + encode_utf8(headers[i].1@) + "\r\n".spec_bytes();
    assert(headers =~= headers.take(i + 1) + headers.skip(i + 1));
    lemma_header_lines_concat(headers.take(i + 1), headers.skip(i + 1));
    assert(headers.take(i + 1) =~= headers.take(i).push(headers[i]));
    lemma_header_lines_push(headers.take(i), headers[i]);
    let pre = request_head(method, host, port, path) + length_line(body.len()) + connection_line(keepalive)
        + header_lines(headers.take(i));
    let raw = raw_request(method, host, port, path, headers, body, keepalive);
    let rest = header_lines(headers.skip(i + 1)) + "\r\n".spec_bytes() + body;
    assert(raw =~= pre + line + rest);
    assert(raw.subrange(pre.len() as int, (pre.len() + line.len()) as int) =~= line);
}

} // verus!
