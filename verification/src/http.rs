//! The strict HTTP/1.1 response parser: status line, header lines, chunk-size
//! lines and the decisions that drive reading a body.
use vstd::prelude::*;
use vstd::utf8::*;
use crate::text::{
    dec_string, is_dec_digit, lemma_dec_string_parses, trim_start_by, trim_end_by, strips,
    all_hex_digits, chars_of, parse_hex, parse_hex_range, parse_unsigned,
    parse_unsigned_range, trim, trim_bounds, trim_line_end, utf8_str,
};

verus! {

pub open spec fn is_ascii_digit(b: u8) -> bool {
    48 <= b && b <= 57
}

/// `u8::to_ascii_lowercase`.
pub open spec fn ascii_lower(b: u8) -> u8 {
    if 65 <= b && b <= 90 {
        (b + 32) as u8
    } else {
        b
    }
}

/// `haystack` starts with `needle` when the haystack's ASCII letters are lowercased
/// (the needle is compared as it is).
pub open spec fn starts_with_ci_spec(haystack: Seq<u8>, needle: Seq<u8>) -> bool {
    &&& haystack.len() >= needle.len()
    &&& forall|i: int| 0 <= i < needle.len() ==> ascii_lower(#[trigger] haystack[i]) == needle[i]
}

/// The bytes `HTTP/1.`.
pub open spec fn http1_prefix() -> Seq<u8> {
    seq![72u8, 84, 84, 80, 47, 49, 46]
}

/// The status code a status line carries, or `None` where the line is refused:
/// at least 13 bytes, `HTTP/1.` then `0` or `1`, a space, and three ASCII digits.
pub open spec fn status_line_code(line: Seq<u8>) -> Option<u16> {
    if line.len() >= 13 && line.take(7) == http1_prefix() && (line[7] == 48u8 || line[7] == 49u8)
        && line[8] == 32u8 && is_ascii_digit(line[9]) && is_ascii_digit(line[10])
        && is_ascii_digit(line[11]) {
        Some(((line[9] - 48) * 100 + (line[10] - 48) * 10 + (line[11] - 48)) as u16)
    } else {
        None
    }
}

/// An empty line: `\r\n` or `\n`.
pub open spec fn is_blank_line_spec(line: Seq<u8>) -> bool {
    line == seq![13u8, 10u8] || line == seq![10u8]
}

/// The bytes `content-length:`.
pub open spec fn content_length_name() -> Seq<u8> {
    seq![99u8, 111, 110, 116, 101, 110, 116, 45, 108, 101, 110, 103, 116, 104, 58]
}

/// The bytes `transfer-encoding:`.
pub open spec fn transfer_encoding_name() -> Seq<u8> {
    seq![116u8, 114, 97, 110, 115, 102, 101, 114, 45, 101, 110, 99, 111, 100, 105, 110, 103, 58]
}

/// The characters `chunked`.
pub open spec fn chunked_chars() -> Seq<char> {
    seq!['c', 'h', 'u', 'n', 'k', 'e', 'd']
}

/// `char::to_ascii_lowercase`.
pub open spec fn ascii_lower_char(c: char) -> char {
    if 'A' <= c && c <= 'Z' {
        ((c as u32) + 32) as char
    } else {
        c
    }
}

/// `str::eq_ignore_ascii_case(s, "chunked")`.
pub open spec fn is_chunked_value(s: Seq<char>) -> bool {
    &&& s.len() == 7
    &&& forall|i: int| 0 <= i < 7 ==> ascii_lower_char(#[trigger] s[i]) == chunked_chars()[i]
}

/// The trimmed text after the first `k` bytes of `line`, when those bytes are UTF-8.
pub open spec fn header_value(line: Seq<u8>, k: int) -> Option<Seq<char>> {
    if valid_utf8(line.skip(k)) {
        Some(trim(decode_utf8(line.skip(k))))
    } else {
        None
    }
}

/// What one header line means to the body reader.
#[derive(PartialEq, Eq, Structural, Clone, Copy, Debug)]
pub enum HeaderLine {
    /// The empty line that ends the header block.
    End,
    /// A `Content-Length` header with its value.
    ContentLength(usize),
    /// A `Transfer-Encoding: chunked` header.
    Chunked,
    /// Any other header.
    Other,
}

/// What a header line is taken for, or `None` where it is refused: a line that is not
/// empty and has no `:`, a `Content-Length` whose value is not UTF-8 or not an unsigned
/// number that fits `usize`, a `Transfer-Encoding` whose value is not UTF-8.
pub open spec fn header_line_spec(line: Seq<u8>) -> Option<HeaderLine> {
    if is_blank_line_spec(line) {
        Some(HeaderLine::End)
    } else if !line.contains(58u8) {
        None
    } else if line.len() > 16 && starts_with_ci_spec(line, content_length_name()) {
        match header_value(line, 15) {
            Some(v) => match parse_unsigned(v, usize::MAX as nat) {
                Some(n) => Some(HeaderLine::ContentLength(n as usize)),
                None => None,
            },
            None => None,
        }
    } else if line.len() > 19 && starts_with_ci_spec(line, transfer_encoding_name()) {
        match header_value(line, 18) {
            Some(v) => if is_chunked_value(v) {
                Some(HeaderLine::Chunked)
            } else {
                Some(HeaderLine::Other)
            },
            None => None,
        }
    } else {
        Some(HeaderLine::Other)
    }
}

/// The characters of `s` before its first `c` (all of `s` where there is none):
/// what `s.split(c).next()` gives.
pub open spec fn before_char(s: Seq<char>, c: char) -> Seq<char>
    decreases s.len(),
{
    if s.len() == 0 {
        s
    } else if s[0] == c {
        Seq::empty()
    } else {
        seq![s[0]] + before_char(s.drop_first(), c)
    }
}

/// The size a chunk-size line announces, or `None` where it is refused: the line must be
/// UTF-8; `\r`, `\n` and spaces are trimmed from both ends; anything from the first `;`
/// on (chunk extensions) is dropped; what is left must be a non-empty run of hex digits
/// whose value fits `usize`.
pub open spec fn chunk_size_spec(line: Seq<u8>) -> Option<nat> {
    if valid_utf8(line) {
        parse_hex(before_char(trim_line_end(decode_utf8(line)), ';'), usize::MAX as nat)
    } else {
        None
    }
}

/// Case-insensitive ASCII prefix test: `haystack` starts with `needle` after its ASCII
/// letters are lowercased. `needle` is expected in lowercase.
pub fn starts_with_ci(haystack: &[u8], needle: &[u8]) -> (r: bool)
    ensures
        r == starts_with_ci_spec(haystack@, needle@),
{
    if haystack.len() < needle.len() {
        return false;
    }
    let mut i: usize = 0;
    while i < needle.len()
        invariant
            i <= needle@.len() <= haystack@.len(),
            forall|j: int| 0 <= j < i ==> ascii_lower(#[trigger] haystack@[j]) == needle@[j],
        decreases needle@.len() - i,
    {
        let b = haystack[i];
        let lower = if 65 <= b && b <= 90 {
            b + 32
        } else {
            b
        };
        if lower != needle[i] {
            return false;
        }
        i += 1;
    }
    true
}

/// Parses a status line (`HTTP/1.1 200 OK\r\n`) into its status code.
pub fn parse_status_line(line: &[u8]) -> (r: Result<u16, ()>)
    ensures
        r matches Ok(code) ==> status_line_code(line@) == Some(code),
        r is Err ==> status_line_code(line@) is None,
{
    if line.len() < 13 {
        return Err(());
    }
    let ok_prefix = line[0] == 72 && line[1] == 84 && line[2] == 84 && line[3] == 80
        && line[4] == 47 && line[5] == 49 && line[6] == 46;
    proof {
        if ok_prefix {
            assert(line@.take(7) =~= http1_prefix());
        } else {
            assert(line@.take(7)[0] == line@[0]);
            assert(line@.take(7)[1] == line@[1]);
            assert(line@.take(7)[2] == line@[2]);
            assert(line@.take(7)[3] == line@[3]);
            assert(line@.take(7)[4] == line@[4]);
            assert(line@.take(7)[5] == line@[5]);
            assert(line@.take(7)[6] == line@[6]);
            assert(line@.take(7) != http1_prefix());
        }
    }
    if !ok_prefix {
        return Err(());
    }
    if !(line[7] == 48 || line[7] == 49) {
        return Err(());
    }
    if line[8] != 32 {
        return Err(());
    }
    let d0 = line[9];
    let d1 = line[10];
    let d2 = line[11];
    if !(48 <= d0 && d0 <= 57 && 48 <= d1 && d1 <= 57 && 48 <= d2 && d2 <= 57) {
        return Err(());
    }
    Ok(((d0 - 48) as u16) * 100 + ((d1 - 48) as u16) * 10 + ((d2 - 48) as u16))
}

/// Whether `line` is the empty line `\r\n` or `\n`.
pub fn is_blank_line(line: &[u8]) -> (r: bool)
    ensures
        r == is_blank_line_spec(line@),
{
    if line.len() == 2 {
        let r = line[0] == 13 && line[1] == 10;
        proof {
            if r {
                assert(line@ =~= seq![13u8, 10u8]);
            } else {
                assert(line@[0] != 13u8 || line@[1] != 10u8);
            }
        }
        r
    } else if line.len() == 1 {
        let r = line[0] == 10;
        proof {
            if r {
                assert(line@ =~= seq![10u8]);
            }
        }
        r
    } else {
        false
    }
}

fn contains_byte(line: &[u8], b: u8) -> (r: bool)
    ensures
        r == line@.contains(b),
{
    let mut i: usize = 0;
    while i < line.len()
        invariant
            i <= line@.len(),
            forall|j: int| 0 <= j < i ==> line@[j] != b,
        decreases line@.len() - i,
    {
        if line[i] == b {
            return true;
        }
        i += 1;
    }
    false
}

fn content_length_name_exec() -> (r: Vec<u8>)
    ensures
        r@ == content_length_name(),
{
    let r = vec![99u8, 111, 110, 116, 101, 110, 116, 45, 108, 101, 110, 103, 116, 104, 58];
    assert(r@ =~= content_length_name());
    r
}

fn transfer_encoding_name_exec() -> (r: Vec<u8>)
    ensures
        r@ == transfer_encoding_name(),
{
    let r = vec![116u8, 114, 97, 110, 115, 102, 101, 114, 45, 101, 110, 99, 111, 100, 105, 110, 103, 58];
    assert(r@ =~= transfer_encoding_name());
    r
}

/// The trimmed characters of `line[k..]`, when those bytes are UTF-8.
fn header_value_chars(line: &[u8], k: usize) -> (r: Option<(Vec<char>, usize, usize)>)
    requires
        k <= line@.len(),
    ensures
        r is Some == header_value(line@, k as int) is Some,
        r matches Some((v, a, b)) ==> a <= b <= v@.len() && header_value(line@, k as int)
            == Some(v@.subrange(a as int, b as int)),
{
    let rest = &line[k..line.len()];
    assert(rest@ =~= line@.skip(k as int));
    match utf8_str(rest) {
        Some(s) => {
            let v = chars_of(s);
            let (a, b) = trim_bounds(&v, 0, v.len(), false);
            assert(v@.subrange(0, v@.len() as int) =~= v@);
            Some((v, a, b))
        },
        None => None,
    }
}

fn is_chunked_range(v: &Vec<char>, a: usize, b: usize) -> (r: bool)
    requires
        a <= b <= v@.len(),
    ensures
        r == is_chunked_value(v@.subrange(a as int, b as int)),
{
    let ghost s = v@.subrange(a as int, b as int);
    if b - a != 7 {
        return false;
    }
    let word = ['c', 'h', 'u', 'n', 'k', 'e', 'd'];
    assert(word@ =~= chunked_chars());
    let mut i: usize = 0;
    while i < 7
        invariant
            a + 7 == b <= v@.len(),
            i <= 7,
            s == v@.subrange(a as int, b as int),
            word@ == chunked_chars(),
            forall|j: int| 0 <= j < i ==> ascii_lower_char(#[trigger] s[j]) == chunked_chars()[j],
        decreases 7 - i,
    {
        let c = v[a + i];
        let lower = if 'A' <= c && c <= 'Z' {
            (((c as u32) + 32) as u8) as char
        } else {
            c
        };
        assert(s[i as int] == c);
        if lower != word[i] {
            return false;
        }
        i += 1;
    }
    true
}

/// Classifies one header line: the end of the header block, `Content-Length`,
/// `Transfer-Encoding: chunked`, or another header; `Err` where the line is refused.
pub fn parse_header_line(line: &[u8]) -> (r: Result<HeaderLine, ()>)
    ensures
        r matches Ok(h) ==> header_line_spec(line@) == Some(h),
        r is Err ==> header_line_spec(line@) is None,
{
    if is_blank_line(line) {
        return Ok(HeaderLine::End);
    }
    if !contains_byte(line, 58) {
        return Err(());
    }
    let cl = content_length_name_exec();
    let te = transfer_encoding_name_exec();
    if line.len() > 16 && starts_with_ci(line, cl.as_slice()) {
        match header_value_chars(line, 15) {
            Some((v, a, b)) => {
                match parse_unsigned_range(&v, a, b, usize::MAX as u64) {
                    Some(n) => Ok(HeaderLine::ContentLength(n as usize)),
                    None => Err(()),
                }
            },
            None => Err(()),
        }
    } else if line.len() > 19 && starts_with_ci(line, te.as_slice()) {
        match header_value_chars(line, 18) {
            Some((v, a, b)) => {
                if is_chunked_range(&v, a, b) {
                    Ok(HeaderLine::Chunked)
                } else {
                    Ok(HeaderLine::Other)
                }
            },
            None => Err(()),
        }
    } else {
        Ok(HeaderLine::Other)
    }
}

proof fn lemma_before_char_index(s: Seq<char>, c: char, k: int)
    requires
        0 <= k <= s.len(),
        forall|j: int| 0 <= j < k ==> s[j] != c,
        k == s.len() || s[k] == c,
    ensures
        before_char(s, c) == s.take(k),
    decreases k,
{
    if k == 0 {
        if s.len() > 0 {
            assert(s.take(0) =~= Seq::<char>::empty());
        } else {
            assert(s.take(0) =~= s);
        }
    } else {
        assert(s[0] != c);
        lemma_before_char_index(s.drop_first(), c, k - 1);
        assert(seq![s[0]] + s.drop_first().take(k - 1) =~= s.take(k));
    }
}

/// Parses a chunk-size line (`1a\r\n`, `1a;ext=1\r\n`) into the chunk's size.
pub fn parse_chunk_size_line(line: &[u8]) -> (r: Result<usize, ()>)
    ensures
        r matches Ok(n) ==> chunk_size_spec(line@) == Some(n as nat),
        r is Err ==> chunk_size_spec(line@) is None,
{
    match utf8_str(line) {
        None => Err(()),
        Some(s) => {
            let v = chars_of(s);
            let (a, b) = trim_bounds(&v, 0, v.len(), true);
            assert(v@.subrange(0, v@.len() as int) =~= v@);
            let ghost t = v@.subrange(a as int, b as int);
            let mut e = a;
            while e < b && v[e] != ';'
                invariant
                    a <= e <= b <= v@.len(),
                    t == v@.subrange(a as int, b as int),
                    forall|j: int| 0 <= j < e - a ==> t[j] != ';',
                decreases b - e,
            {
                e += 1;
            }
            proof {
                if e < b {
                    assert(t[e - a] == v@[e as int]);
                }
                lemma_before_char_index(t, ';', e - a);
                assert(t.take(e - a) =~= v@.subrange(a as int, e as int));
            }
            match parse_hex_range(&v, a, e, usize::MAX as u64) {
                Some(n) => Ok(n as usize),
                None => Err(()),
            }
        },
    }
}

/// How the body of a response is read once its headers are known.
#[derive(PartialEq, Eq, Structural, Clone, Copy, Debug)]
pub enum BodyPlan {
    /// Exactly this many bytes (`Content-Length`).
    Exact(usize),
    /// Chunked transfer encoding.
    Chunked,
    /// No body.
    Empty,
}

/// What the header block has said so far about the body.
pub struct ResponseHead {
    pub content_length: Option<usize>,
    pub is_chunked: bool,
}

impl ResponseHead {
    pub fn new() -> (h: Self)
        ensures
            h.content_length is None,
            !h.is_chunked,
    {
        ResponseHead { content_length: None, is_chunked: false }
    }

    /// Takes one classified header line into account: a later `Content-Length`
    /// replaces an earlier one; `Transfer-Encoding: chunked` sets chunked mode.
    pub fn apply(&mut self, h: HeaderLine)
        ensures
            final(self).content_length == (match h {
                HeaderLine::ContentLength(n) => Some(n),
                _ => old(self).content_length,
            }),
            final(self).is_chunked == (old(self).is_chunked || h == HeaderLine::Chunked),
    {
        match h {
            HeaderLine::ContentLength(n) => {
                self.content_length = Some(n);
            },
            HeaderLine::Chunked => {
                self.is_chunked = true;
            },
            _ => {},
        }
    }

    /// `Content-Length` wins over chunked encoding; with neither there is no body.
    pub fn body_plan(&self) -> (p: BodyPlan)
        ensures
            p == (match self.content_length {
                Some(n) => BodyPlan::Exact(n),
                None => if self.is_chunked {
                    BodyPlan::Chunked
                } else {
                    BodyPlan::Empty
                },
            }),
    {
        match self.content_length {
            Some(n) => BodyPlan::Exact(n),
            None => if self.is_chunked {
                BodyPlan::Chunked
            } else {
                BodyPlan::Empty
            },
        }
    }
}

/// The next step of reading a chunked body after a chunk-size line.
#[derive(PartialEq, Eq, Structural, Clone, Copy, Debug)]
pub enum ChunkStep {
    /// Skip this many bytes: the chunk's data and the CRLF after it.
    Drain(usize),
    /// The last chunk: read the trailer line, which must be empty.
    Trailer,
}

/// The body bytes counted so far in a chunked body.
pub struct ChunkedBody {
    pub total: u64,
}

impl ChunkedBody {
    pub fn new() -> (b: Self)
        ensures
            b.total == 0,
    {
        ChunkedBody { total: 0 }
    }

    /// A chunk of `size` bytes was announced: size zero ends the body, any other size
    /// is counted and is drained together with its trailing CRLF.
    pub fn on_chunk_size(&mut self, size: usize) -> (step: ChunkStep)
        requires
            size > 0 ==> size + 2 <= usize::MAX,
            size > 0 ==> old(self).total + size <= u64::MAX,
        ensures
            size == 0 ==> step == ChunkStep::Trailer && final(self).total == old(self).total,
            size > 0 ==> step == ChunkStep::Drain((size + 2) as usize) && final(self).total
                == old(self).total + size,
    {
        if size == 0 {
            ChunkStep::Trailer
        } else {
            self.total = self.total + size as u64;
            ChunkStep::Drain(size + 2)
        }
    }
}

/// A status line as servers write it (`HTTP/1.x`, a space, three digits, and at least
/// one more byte such as the reason phrase or the line end) is accepted with its code.
pub proof fn lemma_status_line_accepts(minor: u8, code: u16, rest: Seq<u8>)
    requires
        minor <= 1,
        code <= 999,
        rest.len() >= 1,
    ensures
        status_line_code(
            http1_prefix() + seq![
                (48 + minor) as u8,
                32u8,
                (48 + code / 100) as u8,
                (48 + (code / 10) % 10) as u8,
                (48 + code % 10) as u8,
            ] + rest,
        ) == Some(code),
{
    let line = http1_prefix() + seq![
        (48 + minor) as u8,
        32u8,
        (48 + code / 100) as u8,
        (48 + (code / 10) % 10) as u8,
        (48 + code % 10) as u8,
    ] + rest;
    assert(line.take(7) =~= http1_prefix());
    assert(line[7] == (48 + minor) as u8);
    assert(line[8] == 32u8);
    assert(line[9] == (48 + code / 100) as u8);
    assert(line[10] == (48 + (code / 10) % 10) as u8);
    assert(line[11] == (48 + code % 10) as u8);
}

/// ASCII text encodes byte for byte, so dropping characters drops as many bytes.
proof fn lemma_ascii_encode_skip(c: Seq<char>, k: int)
    requires
        is_ascii_chars(c),
        0 <= k <= c.len(),
    ensures
        encode_utf8(c).len() == c.len(),
        encode_utf8(c).skip(k) == encode_utf8(c.skip(k)),
{
    is_ascii_chars_encode_utf8(c);
    assert(is_ascii_chars(c.skip(k)));
    is_ascii_chars_encode_utf8(c.skip(k));
    assert(encode_utf8(c).skip(k) =~= encode_utf8(c.skip(k)));
}

/// The characters `Content-Length: `.
pub open spec fn content_length_prefix() -> Seq<char> {
    seq!['C', 'o', 'n', 't', 'e', 'n', 't', '-', 'L', 'e', 'n', 'g', 't', 'h', ':', ' ']
}

/// A `Content-Length` header as servers write it, `Content-Length: <n>\r\n`, is read
/// back as that length.
pub proof fn lemma_content_length_read_back(n: usize)
    ensures
        header_line_spec(
            encode_utf8(content_length_prefix() + dec_string(n as nat) + seq!['\r', '\n']),
        ) == Some(HeaderLine::ContentLength(n)),
{
    let d = dec_string(n as nat);
    lemma_dec_string_parses(n as nat, usize::MAX as nat);
    let c = content_length_prefix() + d + seq!['\r', '\n'];
    assert(is_ascii_chars(c)) by {
        assert forall|i: int| 0 <= i < c.len() implies '\0' <= #[trigger] c[i] <= '\u{7f}' by {
            if 16 <= i < 16 + d.len() {
                assert(c[i] == d[i - 16]);
                assert(is_dec_digit(d[i - 16]));
            }
        }
    }
    let b = encode_utf8(c);
    lemma_ascii_encode_skip(c, 15);
    is_ascii_chars_encode_utf8(c);
    // the line is not blank, has a ':' and starts with the header name
    assert(b.len() == c.len());
    assert(b[14] == c[14] as u8);
    assert(b.contains(58u8));
    assert(!is_blank_line_spec(b)) by {
        if b == seq![13u8, 10u8] || b == seq![10u8] {
            assert(b[0] == c[0] as u8);
        }
    }
    assert(starts_with_ci_spec(b, content_length_name())) by {
        assert forall|i: int| 0 <= i < 15 implies ascii_lower(#[trigger] b[i]) == content_length_name()[i] by {
            assert(b[i] == c[i] as u8);
        }
    }
    // the value: UTF-8, and trimmed it is the digits
    let rest = c.skip(15);
    assert(rest =~= seq![' '] + d + seq!['\r', '\n']);
    encode_utf8_valid_utf8(rest);
    encode_utf8_decode_utf8(rest);
    let after_space = d + seq!['\r', '\n'];
    assert(rest.drop_first() =~= after_space);
    assert(after_space[0] == d[0]);
    assert(!strips(d[0], false));
    assert(trim_start_by(after_space, false) == after_space);
    assert(trim_start_by(rest, false) == after_space);
    assert(after_space.drop_last() =~= d + seq!['\r']);
    assert((d + seq!['\r']).drop_last() =~= d);
    assert(d.last() == d[d.len() - 1]);
    assert(!strips(d.last(), false));
    assert(trim_end_by(d, false) == d);
    assert(trim_end_by(d + seq!['\r'], false) == d);
    assert(trim_end_by(after_space, false) == d);
    assert(header_value(b, 15) == Some(d));
}

/// A chunk-size line of hex digits and a line end, as servers write it, is read back
/// as the digits' value.
pub proof fn lemma_chunk_size_read_back(h: Seq<char>)
    requires
        h.len() > 0,
        all_hex_digits(h),
        crate::text::hex_value(h) <= usize::MAX,
    ensures
        chunk_size_spec(encode_utf8(h + seq!['\r', '\n'])) == Some(crate::text::hex_value(h)),
{
    let c = h + seq!['\r', '\n'];
    encode_utf8_valid_utf8(c);
    encode_utf8_decode_utf8(c);
    assert(c[0] == h[0]);
    assert(!strips(h[0], true));
    assert(trim_start_by(c, true) == c);
    assert(c.drop_last() =~= h + seq!['\r']);
    assert((h + seq!['\r']).drop_last() =~= h);
    assert(h.last() == h[h.len() - 1]);
    assert(!strips(h.last(), true));
    assert(trim_end_by(h, true) == h);
    assert((h + seq!['\r']).last() == '\r');
    assert(trim_end_by(h + seq!['\r'], true) == h);
    assert(c.last() == '\n');
    assert(trim_end_by(c, true) == h);
    assert(trim_line_end(c) == h);
    lemma_before_char_index(h, ';', h.len() as int);
    assert(h.take(h.len() as int) =~= h);
}

} // verus!
