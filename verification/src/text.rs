//! Character-level helpers shared by the parsers: whitespace trimming,
//! unsigned integer parsing and decimal formatting, with their specifications.
use vstd::prelude::*;
use vstd::utf8::*;

verus! {

/// `char::is_whitespace`: the characters with the Unicode `White_Space` property.
pub open spec fn is_ws(c: char) -> bool {
    ||| ('\t' <= c && c <= '\r')
    ||| c == ' '
    ||| c == '\u{85}'
    ||| c == '\u{A0}'
    ||| c == '\u{1680}'
    ||| ('\u{2000}' <= c && c <= '\u{200A}')
    ||| c == '\u{2028}'
    ||| c == '\u{2029}'
    ||| c == '\u{202F}'
    ||| c == '\u{205F}'
    ||| c == '\u{3000}'
}

/// The characters that `str::trim_matches(|c| c == '\r' || c == '\n' || c == ' ')` strips.
pub open spec fn is_line_end_or_space(c: char) -> bool {
    c == '\r' || c == '\n' || c == ' '
}

/// Whether a trim strips `c`: whitespace (`by_line_end == false`) or `\r`, `\n`, space.
pub open spec fn strips(c: char, by_line_end: bool) -> bool {
    if by_line_end {
        is_line_end_or_space(c)
    } else {
        is_ws(c)
    }
}

/// Drop leading characters that `strips`.
pub open spec fn trim_start_by(s: Seq<char>, by_line_end: bool) -> Seq<char>
    decreases s.len(),
{
    if s.len() > 0 && strips(s[0], by_line_end) {
        trim_start_by(s.drop_first(), by_line_end)
    } else {
        s
    }
}

/// Drop trailing characters that `strips`.
pub open spec fn trim_end_by(s: Seq<char>, by_line_end: bool) -> Seq<char>
    decreases s.len(),
{
    if s.len() > 0 && strips(s.last(), by_line_end) {
        trim_end_by(s.drop_last(), by_line_end)
    } else {
        s
    }
}

/// `str::trim`: drop leading and trailing whitespace.
pub open spec fn trim(s: Seq<char>) -> Seq<char> {
    trim_end_by(trim_start_by(s, false), false)
}

/// `str::trim_matches` with the characters `\r`, `\n` and space.
pub open spec fn trim_line_end(s: Seq<char>) -> Seq<char> {
    trim_end_by(trim_start_by(s, true), true)
}

pub open spec fn is_dec_digit(c: char) -> bool {
    '0' <= c && c <= '9'
}

pub open spec fn dec_digit_value(c: char) -> nat {
    (c as int - '0' as int) as nat
}

pub open spec fn is_hex_digit(c: char) -> bool {
    ||| is_dec_digit(c)
    ||| ('a' <= c && c <= 'f')
    ||| ('A' <= c && c <= 'F')
}

pub open spec fn hex_digit_value(c: char) -> nat {
    if is_dec_digit(c) {
        dec_digit_value(c)
    } else if 'a' <= c && c <= 'f' {
        (c as int - 'a' as int + 10) as nat
    } else {
        (c as int - 'A' as int + 10) as nat
    }
}

pub open spec fn all_dec_digits(s: Seq<char>) -> bool {
    forall|i: int| 0 <= i < s.len() ==> is_dec_digit(#[trigger] s[i])
}

pub open spec fn all_hex_digits(s: Seq<char>) -> bool {
    forall|i: int| 0 <= i < s.len() ==> is_hex_digit(#[trigger] s[i])
}

/// The value of a string of decimal digits, most significant first.
pub open spec fn dec_value(s: Seq<char>) -> nat
    decreases s.len(),
{
    if s.len() == 0 {
        0
    } else {
        dec_value(s.drop_last()) * 10 + dec_digit_value(s.last())
    }
}

/// The value of a string of hexadecimal digits, most significant first.
pub open spec fn hex_value(s: Seq<char>) -> nat
    decreases s.len(),
{
    if s.len() == 0 {
        0
    } else {
        hex_value(s.drop_last()) * 16 + hex_digit_value(s.last())
    }
}

/// What `str::parse` gives for an unsigned integer type whose largest value is
/// `max`: an optional `+`, then at least one decimal digit, and a value that fits.
pub open spec fn parse_unsigned(s: Seq<char>, max: nat) -> Option<nat> {
    let d = if s.len() > 0 && s[0] == '+' { s.drop_first() } else { s };
    if d.len() > 0 && all_dec_digits(d) && dec_value(d) <= max {
        Some(dec_value(d))
    } else {
        None
    }
}

/// A non-empty string of hexadecimal digits whose value fits `max`, as
/// `usize::from_str_radix(s, 16)` accepts it after a check that every character is a hex digit.
pub open spec fn parse_hex(s: Seq<char>, max: nat) -> Option<nat> {
    if s.len() > 0 && all_hex_digits(s) && hex_value(s) <= max {
        Some(hex_value(s))
    } else {
        None
    }
}

/// The decimal representation of `n` without leading zeros (`"0"` for zero),
/// as `u64::to_string` writes it.
pub open spec fn dec_string(n: nat) -> Seq<char>
    decreases n,
{
    if n < 10 {
        seq![(n + '0' as nat) as char]
    } else {
        dec_string(n / 10).push(((n % 10) + '0' as nat) as char)
    }
}

/// Copies the characters of `s` into a vector.
pub fn chars_of(s: &str) -> (v: Vec<char>)
    ensures
        v@ == s@,
{
    let n = s.unicode_len();
    let mut v: Vec<char> = Vec::new();
    let mut i: usize = 0;
    while i < n
        invariant
            n == s@.len(),
            i <= n,
            v@ == s@.subrange(0, i as int),
        decreases n - i,
    {
        let c = s.get_char(i);
        v.push(c);
        i += 1;
        assert(v@ =~= s@.subrange(0, i as int));
    }
    assert(v@ =~= s@);
    v
}

/// Decodes `bytes` as UTF-8 (`std::str::from_utf8`).
///
/// Trusted: claims of `std::str::from_utf8` that it succeeds exactly on
/// valid UTF-8 and then yields the decoded characters, as its documentation says.
#[verifier::external_body]
pub(crate) fn utf8_str(bytes: &[u8]) -> (r: Option<&str>)
    ensures
        r.is_some() == valid_utf8(bytes@),
        r matches Some(s) ==> s@ == decode_utf8(bytes@),
{
    std::str::from_utf8(bytes).ok()
}

/// Appends one character to a string (`String::push`).
///
/// Trusted: claims of `String::push` that it appends `c` and changes nothing else.
#[verifier::external_body]
pub(crate) fn push_char(s: &mut String, c: char)
    ensures
        final(s)@ == old(s)@.push(c),
{
    s.push(c);
}

pub(crate) proof fn lemma_trim_start_skip(s: Seq<char>, i: int, m: bool)
    requires
        0 <= i <= s.len(),
        forall|j: int| 0 <= j < i ==> strips(#[trigger] s[j], m),
    ensures
        trim_start_by(s, m) == trim_start_by(s.skip(i), m),
    decreases i,
{
    if i > 0 {
        assert(s.drop_first().skip(i - 1) =~= s.skip(i));
        lemma_trim_start_skip(s.drop_first(), i - 1, m);
    } else {
        assert(s.skip(0) =~= s);
    }
}

proof fn lemma_trim_end_take(s: Seq<char>, k: int, m: bool)
    requires
        0 <= k <= s.len(),
        forall|j: int| k <= j < s.len() ==> strips(#[trigger] s[j], m),
    ensures
        trim_end_by(s, m) == trim_end_by(s.take(k), m),
    decreases s.len() - k,
{
    if k < s.len() {
        assert(s.drop_last().take(k) =~= s.take(k));
        lemma_trim_end_take(s.drop_last(), k, m);
    } else {
        assert(s.take(k) =~= s);
    }
}

/// The bounds `(a, b)` of the trimmed `v[lo..hi]` inside `v`.
pub fn trim_bounds(v: &Vec<char>, lo: usize, hi: usize, by_line_end: bool) -> (r: (usize, usize))
    requires
        lo <= hi <= v@.len(),
    ensures
        lo <= r.0 <= r.1 <= hi,
        v@.subrange(r.0 as int, r.1 as int) == trim_end_by(
            trim_start_by(v@.subrange(lo as int, hi as int), by_line_end),
            by_line_end,
        ),
{
    let ghost s = v@.subrange(lo as int, hi as int);
    let mut a = lo;
    while a < hi && strips_exec(v[a], by_line_end)
        invariant
            lo <= a <= hi <= v@.len(),
            s == v@.subrange(lo as int, hi as int),
            forall|j: int| lo <= j < a ==> strips(#[trigger] v@[j], by_line_end),
        decreases hi - a,
    {
        a += 1;
    }
    proof {
        assert forall|j: int| 0 <= j < a - lo implies strips(#[trigger] s[j], by_line_end) by {
            assert(s[j] == v@[lo + j]);
        }
        lemma_trim_start_skip(s, a - lo, by_line_end);
        assert(s.skip(a - lo) =~= v@.subrange(a as int, hi as int));
        let t = v@.subrange(a as int, hi as int);
        if t.len() > 0 {
            assert(t[0] == v@[a as int]);
        }
        assert(trim_start_by(t, by_line_end) == t);
    }
    let mut b = hi;
    while b > a && strips_exec(v[b - 1], by_line_end)
        invariant
            lo <= a <= b <= hi <= v@.len(),
            forall|j: int| b <= j < hi ==> strips(#[trigger] v@[j], by_line_end),
        decreases b - a,
    {
        b -= 1;
    }
    proof {
        let t = v@.subrange(a as int, hi as int);
        assert forall|j: int| b - a <= j < t.len() implies strips(#[trigger] t[j], by_line_end) by {
            assert(t[j] == v@[a + j]);
        }
        lemma_trim_end_take(t, b - a, by_line_end);
        assert(t.take(b - a) =~= v@.subrange(a as int, b as int));
        let u = v@.subrange(a as int, b as int);
        if u.len() > 0 {
            assert(u.last() == v@[b - 1]);
        }
        assert(trim_end_by(u, by_line_end) == u);
    }
    (a, b)
}

/// Whether a trim in mode `by_line_end` strips `c`.
pub fn strips_exec(c: char, by_line_end: bool) -> (r: bool)
    ensures
        r == strips(c, by_line_end),
{
    if by_line_end {
        c == '\r' || c == '\n' || c == ' '
    } else {
        is_ws_exec(c)
    }
}

/// `char::is_whitespace`.
pub fn is_ws_exec(c: char) -> (r: bool)
    ensures
        r == is_ws(c),
{
    ('\t' <= c && c <= '\r') || c == ' ' || c == '\u{85}' || c == '\u{A0}' || c == '\u{1680}'
        || ('\u{2000}' <= c && c <= '\u{200A}') || c == '\u{2028}' || c == '\u{2029}'
        || c == '\u{202F}' || c == '\u{205F}' || c == '\u{3000}'
}

proof fn lemma_dec_value_push(s: Seq<char>, c: char)
    ensures
        dec_value(s.push(c)) == dec_value(s) * 10 + dec_digit_value(c),
{
    assert(s.push(c).drop_last() =~= s);
}

proof fn lemma_dec_value_prefix_le(s: Seq<char>, k: int)
    requires
        0 <= k <= s.len(),
    ensures
        dec_value(s.take(k)) <= dec_value(s),
    decreases s.len() - k,
{
    if k < s.len() {
        assert(s.drop_last().take(k) =~= s.take(k));
        lemma_dec_value_prefix_le(s.drop_last(), k);
    } else {
        assert(s.take(k) =~= s);
    }
}

/// `str::parse::<u64>` restricted to values up to `max`, on `v[lo..hi]`:
/// the parse that every unsigned integer type of the standard library performs.
pub fn parse_unsigned_range(v: &Vec<char>, lo: usize, hi: usize, max: u64) -> (r: Option<u64>)
    requires
        lo <= hi <= v@.len(),
    ensures
        r matches Some(n) ==> parse_unsigned(v@.subrange(lo as int, hi as int), max as nat) == Some(
            n as nat,
        ),
        r is None ==> parse_unsigned(v@.subrange(lo as int, hi as int), max as nat) is None,
{
    let ghost s = v@.subrange(lo as int, hi as int);
    let mut start = lo;
    if lo < hi && v[lo] == '+' {
        start = lo + 1;
    }
    let ghost d = v@.subrange(start as int, hi as int);
    assert(d =~= (if s.len() > 0 && s[0] == '+' { s.drop_first() } else { s }));
    if start >= hi {
        return None;
    }
    let mut acc: u64 = 0;
    let mut i = start;
    while i < hi
        invariant
            lo <= start <= i <= hi <= v@.len(),
            d == v@.subrange(start as int, hi as int),
            s == v@.subrange(lo as int, hi as int),
            d == (if s.len() > 0 && s[0] == '+' { s.drop_first() } else { s }),
            all_dec_digits(v@.subrange(start as int, i as int)),
            acc as nat == dec_value(v@.subrange(start as int, i as int)),
            acc <= max,
        decreases hi - i,
    {
        let c = v[i];
        if !('0' <= c && c <= '9') {
            proof {
                assert(d[i - start] == c);
            }
            return None;
        }
        let digit = (c as u32 - '0' as u32) as u64;
        proof {
            assert(v@.subrange(start as int, i + 1) =~= v@.subrange(start as int, i as int).push(c));
            lemma_dec_value_push(v@.subrange(start as int, i as int), c);
        }
        if (acc as u128) * 10 + (digit as u128) > (max as u128) {
            proof {
                assert(v@.subrange(start as int, i + 1) =~= d.take(i + 1 - start));
                lemma_dec_value_prefix_le(d, i + 1 - start);
            }
            return None;
        }
        acc = acc * 10 + digit;
        i += 1;
    }
    assert(v@.subrange(start as int, hi as int) =~= d);
    Some(acc)
}

proof fn lemma_hex_value_push(s: Seq<char>, c: char)
    ensures
        hex_value(s.push(c)) == hex_value(s) * 16 + hex_digit_value(c),
{
    assert(s.push(c).drop_last() =~= s);
}

proof fn lemma_hex_value_prefix_le(s: Seq<char>, k: int)
    requires
        0 <= k <= s.len(),
    ensures
        hex_value(s.take(k)) <= hex_value(s),
    decreases s.len() - k,
{
    if k < s.len() {
        assert(s.drop_last().take(k) =~= s.take(k));
        lemma_hex_value_prefix_le(s.drop_last(), k);
    } else {
        assert(s.take(k) =~= s);
    }
}

/// The value of the hex digit `c`, if it is one.
pub fn hex_digit(c: char) -> (r: Option<u64>)
    ensures
        r is Some == is_hex_digit(c),
        r matches Some(d) ==> d as nat == hex_digit_value(c) && d < 16,
{
    if '0' <= c && c <= '9' {
        Some((c as u32 - '0' as u32) as u64)
    } else if 'a' <= c && c <= 'f' {
        Some((c as u32 - 'a' as u32 + 10) as u64)
    } else if 'A' <= c && c <= 'F' {
        Some((c as u32 - 'A' as u32 + 10) as u64)
    } else {
        None
    }
}

/// `parse_hex` on `v[lo..hi]`.
pub fn parse_hex_range(v: &Vec<char>, lo: usize, hi: usize, max: u64) -> (r: Option<u64>)
    requires
        lo <= hi <= v@.len(),
    ensures
        r matches Some(n) ==> parse_hex(v@.subrange(lo as int, hi as int), max as nat) == Some(
            n as nat,
        ),
        r is None ==> parse_hex(v@.subrange(lo as int, hi as int), max as nat) is None,
{
    let ghost d = v@.subrange(lo as int, hi as int);
    if lo >= hi {
        return None;
    }
    let mut acc: u64 = 0;
    let mut i = lo;
    while i < hi
        invariant
            lo <= i <= hi <= v@.len(),
            d == v@.subrange(lo as int, hi as int),
            all_hex_digits(v@.subrange(lo as int, i as int)),
            acc as nat == hex_value(v@.subrange(lo as int, i as int)),
            acc <= max,
        decreases hi - i,
    {
        let c = v[i];
        let digit = match hex_digit(c) {
            Some(x) => x,
            None => {
                proof {
                    assert(d[i - lo] == c);
                }
                return None;
            },
        };
        proof {
            assert(v@.subrange(lo as int, i + 1) =~= v@.subrange(lo as int, i as int).push(c));
            lemma_hex_value_push(v@.subrange(lo as int, i as int), c);
        }
        if (acc as u128) * 16 + (digit as u128) > (max as u128) {
            proof {
                assert(v@.subrange(lo as int, i + 1) =~= d.take(i + 1 - lo));
                lemma_hex_value_prefix_le(d, i + 1 - lo);
            }
            return None;
        }
        acc = acc * 16 + digit;
        i += 1;
    }
    Some(acc)
}

/// Decimal text reads back as the number it was written from: `dec_string(n)` is a
/// non-empty run of digits without a sign, whose value is `n`, so `str::parse` gives
/// back `n` for every type that can hold it.
pub proof fn lemma_dec_string_parses(n: nat, max: nat)
    requires
        n <= max,
    ensures
        dec_string(n).len() >= 1,
        all_dec_digits(dec_string(n)),
        dec_value(dec_string(n)) == n,
        parse_unsigned(dec_string(n), max) == Some(n),
{
    lemma_dec_string_value(n);
}

proof fn lemma_dec_string_value(n: nat)
    ensures
        dec_string(n).len() >= 1,
        all_dec_digits(dec_string(n)),
        dec_value(dec_string(n)) == n,
    decreases n,
{
    if n < 10 {
        let s = dec_string(n);
        assert(s.drop_last() =~= Seq::<char>::empty());
        let c = (n + '0' as nat) as char;
        assert(c as int == n + 48);
        assert(dec_digit_value(c) == n);
        assert(s.last() == c);
        assert(dec_value(s.drop_last()) == 0);
        assert(dec_value(s) == dec_value(s.drop_last()) * 10 + dec_digit_value(s.last()));
    } else {
        lemma_dec_string_value(n / 10);
        let p = dec_string(n / 10);
        let s = dec_string(n);
        assert(s.drop_last() =~= p);
        let c = ((n % 10) + '0' as nat) as char;
        assert(c as int == n % 10 + 48);
        assert(dec_digit_value(c) == n % 10);
        assert(s.last() == c);
        assert(dec_value(s) == dec_value(p) * 10 + dec_digit_value(c));
        assert((n / 10) * 10 + n % 10 == n);
        assert forall|i: int| 0 <= i < s.len() implies is_dec_digit(#[trigger] s[i]) by {
            if i < p.len() {
                assert(s[i] == p[i]);
            }
        }
    }
}

} // verus!
