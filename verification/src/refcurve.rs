//! Reading a reference curve back out of the JSON that an earlier sweep wrote: the
//! url and method, the baseline section and the extent of each measured point, found
//! by the field names of the sweep's own JSON output. The numbers themselves are read
//! by the caller from the byte spans given here.
use vstd::prelude::*;
use vstd::utf8::is_char_boundary;
use vstd::string::StringSliceAdditionalSpecFns;
use crate::cli::string_of_range;
use crate::request::{index_of_first, lemma_index_of_first_at};
use crate::sweep::{find_char, json_escaped};
use crate::text::{chars_of, is_ws_exec, lemma_trim_start_skip, strips, trim_start_by};

verus! {

/// Whether `needle` occurs in `hay` at position `i`.
pub open spec fn occurs_at<T>(hay: Seq<T>, needle: Seq<T>, i: int) -> bool {
    0 <= i && i + needle.len() <= hay.len() && hay.subrange(i, i + needle.len()) == needle
}

/// The first position at or after `from` where `needle` occurs in `hay`.
pub open spec fn find_from<T>(hay: Seq<T>, needle: Seq<T>, from: int) -> Option<int>
    decreases hay.len() + 1 - from,
{
    if from < 0 || from + needle.len() > hay.len() {
        None
    } else if occurs_at(hay, needle, from) {
        Some(from)
    } else {
        find_from(hay, needle, from + 1)
    }
}

/// The search finds the first occurrence: a position it finds holds the needle and no
/// earlier position from `from` on does; when it finds none, no position from `from`
/// on holds the needle.
pub proof fn lemma_find_from_first<T>(hay: Seq<T>, needle: Seq<T>, from: int)
    requires
        0 <= from,
    ensures
        (match find_from(hay, needle, from) {
            Some(i) => from <= i && occurs_at(hay, needle, i) && forall|j: int|
                from <= j < i ==> !occurs_at(hay, needle, j),
            None => forall|j: int| from <= j ==> !occurs_at(hay, needle, j),
        }),
    decreases hay.len() + 1 - from,
{
    if from + needle.len() > hay.len() {
    } else if occurs_at(hay, needle, from) {
    } else {
        lemma_find_from_first(hay, needle, from + 1);
    }
}

/// An optional index as an optional integer.
pub open spec fn opt_int(r: Option<usize>) -> Option<int> {
    match r {
        Some(i) => Some(i as int),
        None => None,
    }
}

fn bytes_at(hay: &[u8], needle: &[u8], i: usize) -> (r: bool)
    requires
        i + needle@.len() <= hay@.len(),
    ensures
        r == occurs_at(hay@, needle@, i as int),
{
    let hl = hay.len();
    let mut k: usize = 0;
    while k < needle.len()
        invariant
            k <= needle@.len(),
            hl == hay@.len(),
            i + needle@.len() <= hay@.len(),
            forall|j: int| 0 <= j < k ==> hay@[i + j] == needle@[j],
        decreases needle@.len() - k,
    {
        if hay[i + k] != needle[k] {
            assert(hay@.subrange(i as int, i + needle@.len())[k as int] != needle@[k as int]);
            return false;
        }
        k += 1;
    }
    assert(hay@.subrange(i as int, i + needle@.len()) =~= needle@);
    true
}

/// The first occurrence of `needle` in `hay` at or after `from`, as `str::find`
/// reports it on the text from `from` on (shifted by `from`).
pub fn find_bytes(hay: &[u8], needle: &[u8], from: usize) -> (r: Option<usize>)
    ensures
        opt_int(r) == find_from(hay@, needle@, from as int),
{
    if needle.len() > hay.len() {
        return None;
    }
    let hl = hay.len();
    let last = hl - needle.len();
    let mut i = from;
    while i <= last
        invariant
            from <= i,
            hl == hay@.len(),
            last + needle@.len() == hay@.len(),
            find_from(hay@, needle@, from as int) == find_from(hay@, needle@, i as int),
        decreases last + 1 - i,
    {
        if bytes_at(hay, needle, i) {
            return Some(i);
        }
        if needle.len() == 0 {
            assert(hay@.subrange(i as int, i as int) =~= needle@);
        }
        i += 1;
    }
    None
}

fn chars_at(hay: &Vec<char>, needle: &Vec<char>, i: usize) -> (r: bool)
    requires
        i + needle@.len() <= hay@.len(),
    ensures
        r == occurs_at(hay@, needle@, i as int),
{
    let hl = hay.len();
    let mut k: usize = 0;
    while k < needle.len()
        invariant
            k <= needle@.len(),
            hl == hay@.len(),
            i + needle@.len() <= hay@.len(),
            forall|j: int| 0 <= j < k ==> hay@[i + j] == needle@[j],
        decreases needle@.len() - k,
    {
        if hay[i + k] != needle[k] {
            assert(hay@.subrange(i as int, i + needle@.len())[k as int] != needle@[k as int]);
            return false;
        }
        k += 1;
    }
    assert(hay@.subrange(i as int, i + needle@.len()) =~= needle@);
    true
}

/// The first occurrence of `needle` in `hay` at or after `from`, counted in characters.
pub fn find_chars(hay: &Vec<char>, needle: &Vec<char>, from: usize) -> (r: Option<usize>)
    ensures
        opt_int(r) == find_from(hay@, needle@, from as int),
{
    if needle.len() > hay.len() {
        return None;
    }
    let hl = hay.len();
    let last = hl - needle.len();
    let mut i = from;
    while i <= last
        invariant
            from <= i,
            hl == hay@.len(),
            last + needle@.len() == hay@.len(),
            find_from(hay@, needle@, from as int) == find_from(hay@, needle@, i as int),
        decreases last + 1 - i,
    {
        if chars_at(hay, needle, i) {
            return Some(i);
        }
        if needle.len() == 0 {
            assert(hay@.subrange(i as int, i as int) =~= needle@);
        }
        i += 1;
    }
    None
}

/// The pattern `"key":` that introduces field `key`, in bytes.
pub open spec fn key_pattern_bytes(key: Seq<u8>) -> Seq<u8> {
    seq![34u8] + key + seq![34u8, 58u8]
}

/// The pattern `"key":` that introduces field `key`, in characters.
pub open spec fn key_pattern(key: Seq<char>) -> Seq<char> {
    seq!['"'] + key + seq!['"', ':']
}

/// A byte that ends a number value: `,`, `}` or `]`.
pub open spec fn ends_value(b: u8) -> bool {
    b == 44u8 || b == 125u8 || b == 93u8
}

/// The position of the first byte at or after `i` that ends a value, or the end.
pub open spec fn value_end(s: Seq<u8>, i: nat) -> nat
    decreases s.len() - i,
{
    if i >= s.len() {
        s.len()
    } else if ends_value(s[i as int]) {
        i
    } else {
        value_end(s, i + 1)
    }
}

/// Where the number of field `key` lies in `obj`: from just after the first `"key":`
/// up to the first `,`, `}` or `]` after it, or to the end.
pub open spec fn number_span_spec(obj: Seq<u8>, key: Seq<u8>) -> Option<(int, int)> {
    match find_from(obj, key_pattern_bytes(key), 0) {
        Some(i) => {
            let start = i + key_pattern_bytes(key).len();
            Some((start, value_end(obj, start as nat) as int))
        },
        None => None,
    }
}

fn pattern_bytes(key: &[u8]) -> (p: Vec<u8>)
    requires
        key@.len() + 3 <= usize::MAX,
    ensures
        p@ == key_pattern_bytes(key@),
{
    let mut p: Vec<u8> = Vec::new();
    p.push(34u8);
    let mut i: usize = 0;
    while i < key.len()
        invariant
            i <= key@.len(),
            p@ == seq![34u8] + key@.take(i as int),
        decreases key@.len() - i,
    {
        p.push(key[i]);
        i += 1;
        assert(p@ =~= seq![34u8] + key@.take(i as int));
    }
    p.push(34u8);
    p.push(58u8);
    assert(key@.take(key@.len() as int) =~= key@);
    assert(p@ =~= key_pattern_bytes(key@));
    p
}

/// The byte span of the number of field `key` in `obj` (see `number_span_spec`).
pub fn number_span(obj: &[u8], key: &[u8]) -> (r: Option<(usize, usize)>)
    requires
        key@.len() + 3 <= usize::MAX,
    ensures
        (match r {
            Some((a, b)) => number_span_spec(obj@, key@) == Some((a as int, b as int)),
            None => number_span_spec(obj@, key@) is None,
        }),
{
    let pat = pattern_bytes(key);
    let ol = obj.len();
    match find_bytes(obj, &pat, 0) {
        None => None,
        Some(i) => {
            proof {
                lemma_find_from_first(obj@, pat@, 0);
            }
            let start = i + pat.len();
            let mut e = start;
            while e < ol && !(obj[e] == 44u8 || obj[e] == 125u8 || obj[e] == 93u8)
                invariant
                    ol == obj@.len(),
                    start <= e <= obj@.len(),
                    value_end(obj@, start as nat) == value_end(obj@, e as nat),
                decreases obj@.len() - e,
            {
                e += 1;
            }
            Some((start, e))
        },
    }
}

/// The text between the quotes that open `t`: `None` unless `t` starts with `"` and
/// a second `"` follows.
pub open spec fn quoted_prefix(t: Seq<char>) -> Option<Seq<char>> {
    if t.len() > 0 && t[0] == '"' {
        let rest = t.drop_first();
        let j = index_of_first(rest, '"');
        if j < rest.len() {
            Some(rest.take(j))
        } else {
            None
        }
    } else {
        None
    }
}

/// The value of string field `key` in `text`: after the first `"key":` and any
/// whitespace, the characters between the next two `"`; `None` when the field is
/// missing or its value is not a closed string.
pub open spec fn string_field_spec(text: Seq<char>, key: Seq<char>) -> Option<Seq<char>> {
    match find_from(text, key_pattern(key), 0) {
        Some(i) => quoted_prefix(trim_start_by(text.skip(i + key_pattern(key).len()), false)),
        None => None,
    }
}

/// The value of string field `key` in the characters `v` (see `string_field_spec`).
pub fn string_field(v: &Vec<char>, key: &str) -> (r: Option<String>)
    ensures
        (match r {
            Some(s) => string_field_spec(v@, key@) == Some(s@),
            None => string_field_spec(v@, key@) is None,
        }),
{
    let k = chars_of(key);
    let mut pat: Vec<char> = Vec::new();
    pat.push('"');
    let mut i: usize = 0;
    while i < k.len()
        invariant
            i <= k@.len(),
            k@ == key@,
            pat@ == seq!['"'] + k@.take(i as int),
        decreases k@.len() - i,
    {
        pat.push(k[i]);
        i += 1;
        assert(pat@ =~= seq!['"'] + k@.take(i as int));
    }
    pat.push('"');
    pat.push(':');
    assert(k@.take(k@.len() as int) =~= k@);
    assert(pat@ =~= key_pattern(key@));
    let n = v.len();
    match find_chars(v, &pat, 0) {
        None => None,
        Some(p) => {
            proof {
                lemma_find_from_first(v@, pat@, 0);
            }
            let start = p + pat.len();
            let ghost rest = v@.skip(start as int);
            let mut a = start;
            while a < n && is_ws_exec(v[a])
                invariant
                    start <= a <= n == v@.len(),
                    rest == v@.skip(start as int),
                    forall|j: int| start <= j < a ==> strips(#[trigger] v@[j], false),
                decreases n - a,
            {
                a += 1;
            }
            proof {
                assert forall|j: int| 0 <= j < a - start implies strips(#[trigger] rest[j], false) by {
                    assert(rest[j] == v@[start + j]);
                }
                lemma_trim_start_skip(rest, a - start, false);
                assert(rest.skip(a - start) =~= v@.skip(a as int));
                let t = v@.skip(a as int);
                if t.len() > 0 {
                    assert(t[0] == v@[a as int]);
                }
                assert(trim_start_by(t, false) == t);
            }
            if a < n && v[a] == '"' {
                let j = find_char(v, a + 1, n, '"');
                proof {
                    let t = v@.skip(a as int);
                    assert(t.drop_first() =~= v@.subrange(a + 1, n as int));
                }
                if j < n {
                    let s = string_of_range(v, a + 1, j);
                    proof {
                        let t = v@.skip(a as int);
                        assert(t.drop_first().take(j - (a + 1)) =~= v@.subrange(a + 1, j as int));
                    }
                    Some(s)
                } else {
                    None
                }
            } else {
                None
            }
        },
    }
}

/// The bytes `"concurrency":`.
pub open spec fn concurrency_key() -> Seq<u8> {
    seq![34u8, 99u8, 111u8, 110u8, 99u8, 117u8, 114u8, 114u8, 101u8, 110u8, 99u8, 121u8, 34u8, 58u8]
}

/// The bytes `"baseline":`.
pub open spec fn baseline_key() -> Seq<u8> {
    seq![34u8, 98u8, 97u8, 115u8, 101u8, 108u8, 105u8, 110u8, 101u8, 34u8, 58u8]
}

/// The bytes `"sweep_points":`.
pub open spec fn sweep_points_key() -> Seq<u8> {
    seq![34u8, 115u8, 119u8, 101u8, 101u8, 112u8, 95u8, 112u8, 111u8, 105u8, 110u8, 116u8, 115u8, 34u8, 58u8]
}

/// The search for points moves forward: a point found from `cursor` starts at or after
/// it, and its closing `}` lies after the cursor and inside the text.
pub proof fn lemma_point_advances(text: Seq<u8>, cursor: nat, a: int, close: int)
    requires
        find_from(text, concurrency_key(), cursor as int) == Some(a),
        find_from(text, seq![125u8], a) == Some(close),
    ensures
        cursor < close < text.len(),
{
    lemma_find_from_first(text, concurrency_key(), cursor as int);
    lemma_find_from_first(text, seq![125u8], a);
    assert(text.subrange(a, a + 14)[0] == text[a]);
    assert(text.subrange(close, close + 1)[0] == text[close]);
}

/// The spans of the measured points found from `cursor` on: each runs from a
/// `"concurrency":` to the first `}` after it, that `}` included, and the search goes
/// on from that `}`. `None` when a point has no `}` after it.
pub open spec fn point_spans_from(text: Seq<u8>, cursor: nat) -> Option<Seq<(int, int)>>
    decreases text.len() - cursor,
{
    match find_from(text, concurrency_key(), cursor as int) {
        None => Some(Seq::empty()),
        Some(a) => match find_from(text, seq![125u8], a) {
            None => None,
            Some(close) => {
                proof {
                    lemma_point_advances(text, cursor, a, close);
                }
                match point_spans_from(text, close as nat) {
                    Some(rest) => Some(seq![(a, close + 1)] + rest),
                    None => None,
                }
            },
        },
    }
}

/// Spans of byte positions as integer pairs.
pub open spec fn spans_view(v: Seq<(usize, usize)>) -> Seq<(int, int)> {
    v.map_values(|p: (usize, usize)| (p.0 as int, p.1 as int))
}

/// `acc` followed by the spans of `rest`, when there are any.
pub open spec fn prepend_spans(acc: Seq<(int, int)>, rest: Option<Seq<(int, int)>>) -> Option<Seq<(int, int)>> {
    match rest {
        Some(r) => Some(acc + r),
        None => None,
    }
}

fn point_spans(text: &[u8], start: usize) -> (r: Option<Vec<(usize, usize)>>)
    ensures
        (match r {
            Some(v) => point_spans_from(text@, start as nat) == Some(spans_view(v@)),
            None => point_spans_from(text@, start as nat) is None,
        }),
{
    let key: [u8; 14] = [34, 99, 111, 110, 99, 117, 114, 114, 101, 110, 99, 121, 34, 58];
    let close_key: [u8; 1] = [125];
    assert(key@ =~= concurrency_key());
    assert(close_key@ =~= seq![125u8]);
    let tl = text.len();
    let mut out: Vec<(usize, usize)> = Vec::new();
    let mut cursor = start;
    assert(spans_view(out@) =~= Seq::<(int, int)>::empty());
    assert(prepend_spans(Seq::empty(), point_spans_from(text@, start as nat)) =~= point_spans_from(text@, start as nat)) by {
        match point_spans_from(text@, start as nat) {
            Some(r) => {
                assert(Seq::<(int, int)>::empty() + r =~= r);
            },
            None => {},
        }
    }
    loop
        invariant
            tl == text@.len(),
            key@ == concurrency_key(),
            close_key@ == seq![125u8],
            point_spans_from(text@, start as nat) == prepend_spans(
                spans_view(out@),
                point_spans_from(text@, cursor as nat),
            ),
        decreases text@.len() - cursor,
    {
        match find_bytes(text, &key, cursor) {
            None => {
                assert(spans_view(out@) + Seq::<(int, int)>::empty() =~= spans_view(out@));
                return Some(out);
            },
            Some(a) => match find_bytes(text, &close_key, a) {
                None => {
                    return None;
                },
                Some(close) => {
                    proof {
                        lemma_point_advances(text@, cursor as nat, a as int, close as int);
                    }
                    let ghost before = spans_view(out@);
                    out.push((a, close + 1));
                    proof {
                        let x = (a as int, close + 1);
                        assert(spans_view(out@) =~= before + seq![x]);
                        match point_spans_from(text@, close as nat) {
                            Some(r) => {
                                assert((before + seq![x]) + r =~= before + (seq![x] + r));
                            },
                            None => {},
                        }
                    }
                    cursor = close;
                },
            },
        }
    }
}

/// Why a reference curve could not be read.
#[derive(PartialEq, Eq, Structural, Clone, Copy, Debug)]
pub enum RefCurveError {
    /// No string field `url`.
    MissingUrl,
    /// No `"baseline":` field.
    MissingBaseline,
    /// The 400 bytes from `"baseline":` on end inside a character.
    BaselineSplitsChar,
    /// No `"sweep_points":` field.
    MissingSweepPoints,
    /// A point's `"concurrency":` has no `}` after it.
    UnclosedPoint,
}

/// Where the parts of a reference curve lie in its JSON text.
pub struct RefLayout {
    pub url: String,
    /// The method, when the text names one.
    pub method: Option<String>,
    /// The byte span of the baseline section.
    pub baseline: (usize, usize),
    /// The byte spans of the measured points, in order.
    pub points: Vec<(usize, usize)>,
}

/// A reference curve's layout, as plain values.
pub ghost struct RefLayoutView {
    pub url: Seq<char>,
    pub method: Option<Seq<char>>,
    pub baseline: (int, int),
    pub points: Seq<(int, int)>,
}

impl View for RefLayout {
    type V = RefLayoutView;

    open spec fn view(&self) -> RefLayoutView {
        RefLayoutView {
            url: self.url@,
            method: match self.method {
                Some(m) => Some(m@),
                None => None,
            },
            baseline: (self.baseline.0 as int, self.baseline.1 as int),
            points: spans_view(self.points@),
        }
    }
}

/// Where the array of points that follows `"sweep_points":` at `p` ends: at the first `]`
/// after the first `[` from `p` on (a point object holds no `]`), or at the end of the
/// text when there is none.
pub open spec fn points_end(bytes: Seq<u8>, p: int) -> int {
    match find_from(bytes, seq![91u8], p) {
        Some(o) => match find_from(bytes, seq![93u8], o) {
            Some(c) => c,
            None => bytes.len() as int,
        },
        None => bytes.len() as int,
    }
}

/// How the reader takes a reference curve's JSON apart, checking in this order: the
/// string field `url` must be there; the method is taken when there is one; the
/// baseline section is the 400 bytes from the first `"baseline":` on (fewer at the end
/// of the text), and must not end inside a character; then the points of the array that
/// follows the first `"sweep_points":`, up to the `]` that closes it.
pub open spec fn layout_spec(chars: Seq<char>, bytes: Seq<u8>) -> Result<RefLayoutView, RefCurveError> {
    match string_field_spec(chars, "url"@) {
        None => Err(RefCurveError::MissingUrl),
        Some(url) => match find_from(bytes, baseline_key(), 0) {
            None => Err(RefCurveError::MissingBaseline),
            Some(b) => {
                let e = b + if 400 < bytes.len() - b { 400 } else { bytes.len() - b };
                if !is_char_boundary(bytes, e) {
                    Err(RefCurveError::BaselineSplitsChar)
                } else {
                    match find_from(bytes, sweep_points_key(), 0) {
                        None => Err(RefCurveError::MissingSweepPoints),
                        Some(p) => match point_spans_from(bytes.take(points_end(bytes, p)), p as nat) {
                            None => Err(RefCurveError::UnclosedPoint),
                            Some(points) => Ok(
                                RefLayoutView {
                                    url,
                                    method: string_field_spec(chars, "method"@),
                                    baseline: (b, e),
                                    points,
                                },
                            ),
                        },
                    }
                }
            },
        },
    }
}

/// Takes a reference curve's JSON text apart (see `layout_spec`).
pub fn reference_layout(text: &str) -> (r: Result<RefLayout, RefCurveError>)
    ensures
        (match r {
            Ok(l) => layout_spec(text@, text.spec_bytes()) == Ok::<RefLayoutView, RefCurveError>(l@),
            Err(e) => layout_spec(text@, text.spec_bytes()) == Err::<RefLayoutView, RefCurveError>(e),
        }),
{
    let v = chars_of(text);
    let url = match string_field(&v, "url") {
        Some(u) => u,
        None => {
            return Err(RefCurveError::MissingUrl);
        },
    };
    let method = string_field(&v, "method");
    let bytes = text.as_bytes();
    let n = bytes.len();
    let bkey: [u8; 11] = [34, 98, 97, 115, 101, 108, 105, 110, 101, 34, 58];
    assert(bkey@ =~= baseline_key());
    let b = match find_bytes(bytes, &bkey, 0) {
        Some(b) => b,
        None => {
            return Err(RefCurveError::MissingBaseline);
        },
    };
    proof {
        lemma_find_from_first(bytes@, bkey@, 0);
    }
    let e = b + if 400 < n - b { 400 } else { n - b };
    if !text.is_char_boundary(e) {
        return Err(RefCurveError::BaselineSplitsChar);
    }
    let pkey: [u8; 15] = [34, 115, 119, 101, 101, 112, 95, 112, 111, 105, 110, 116, 115, 34, 58];
    assert(pkey@ =~= sweep_points_key());
    let p = match find_bytes(bytes, &pkey, 0) {
        Some(p) => p,
        None => {
            return Err(RefCurveError::MissingSweepPoints);
        },
    };
    proof {
        lemma_find_from_first(bytes@, pkey@, 0);
    }
    let open_key: [u8; 1] = [91];
    let close_key: [u8; 1] = [93];
    assert(open_key@ =~= seq![91u8]);
    assert(close_key@ =~= seq![93u8]);
    let end = match find_bytes(bytes, &open_key, p) {
        Some(o) => {
            proof {
                lemma_find_from_first(bytes@, open_key@, p as int);
            }
            match find_bytes(bytes, &close_key, o) {
                Some(c) => {
                    proof {
                        lemma_find_from_first(bytes@, close_key@, o as int);
                    }
                    c
                },
                None => n,
            }
        },
        None => n,
    };
    assert(p <= end <= n);
    let array = vstd::slice::slice_subrange(bytes, 0, end);
    assert(array@ =~= bytes@.take(end as int));
    match point_spans(array, p) {
        Some(points) => Ok(RefLayout { url, method, baseline: (b, e), points }),
        None => Err(RefCurveError::UnclosedPoint),
    }
}

proof fn lemma_find_from_at<T>(hay: Seq<T>, needle: Seq<T>, from: int, p: int)
    requires
        0 <= from <= p,
        occurs_at(hay, needle, p),
        forall|j: int| from <= j < p ==> !occurs_at(hay, needle, j),
    ensures
        find_from(hay, needle, from) == Some(p),
    decreases p - from,
{
    if from < p {
        lemma_find_from_at(hay, needle, from + 1, p);
    }
}

/// Text that needs no escape in a JSON string: no `"`, no `\`, no control character.
pub open spec fn plain_json_text(s: Seq<char>) -> bool {
    forall|i: int| 0 <= i < s.len() ==> #[trigger] s[i] != '"' && s[i] != '\\' && (s[i] as u32) >= 0x20
}

proof fn lemma_plain_escapes_to_itself(s: Seq<char>)
    requires
        plain_json_text(s),
    ensures
        json_escaped(s) == s,
    decreases s.len(),
{
    if s.len() > 0 {
        let p = s.drop_last();
        assert(plain_json_text(p)) by {
            assert forall|i: int| 0 <= i < p.len() implies #[trigger] p[i] != '"' && p[i] != '\\' && (p[i] as u32)
                >= 0x20 by {
                assert(p[i] == s[i]);
            }
        }
        lemma_plain_escapes_to_itself(p);
        let c = s.last();
        assert(c == s[s.len() - 1]);
        assert(c != '\n' && c != '\r' && c != '\t');
        assert(s =~= p + seq![c]);
    }
}

/// A string field as the sweep's JSON writes it: `"key": ` and the value quoted and
/// escaped as `json_string` writes it, between other text.
pub open spec fn written_string_field(pre: Seq<char>, key: Seq<char>, value: Seq<char>, post: Seq<char>) -> Seq<char> {
    pre + key_pattern(key) + seq![' ', '"'] + json_escaped(value) + seq!['"'] + post
}

/// A string field that the sweep's JSON output wrote is read back as the value it was
/// written from, when the value needs no escape and no earlier `"key":` occurs.
pub proof fn lemma_string_field_read_back(pre: Seq<char>, key: Seq<char>, value: Seq<char>, post: Seq<char>)
    requires
        plain_json_text(value),
        forall|j: int|
            0 <= j < pre.len() ==> !occurs_at(written_string_field(pre, key, value, post), key_pattern(key), j),
    ensures
        string_field_spec(written_string_field(pre, key, value, post), key) == Some(value),
{
    lemma_plain_escapes_to_itself(value);
    let pat = key_pattern(key);
    let text = written_string_field(pre, key, value, post);
    let p = pre.len() as int;
    assert(text =~= pre + pat + (seq![' ', '"'] + value + seq!['"'] + post));
    assert(text.subrange(p, p + pat.len()) =~= pat);
    lemma_find_from_at(text, pat, 0, p);
    let rest = text.skip(p + pat.len());
    assert(rest =~= seq![' ', '"'] + value + seq!['"'] + post);
    let t = seq!['"'] + value + seq!['"'] + post;
    assert(rest.drop_first() =~= t);
    assert(rest[0] == ' ');
    assert(t[0] == '"');
    assert(trim_start_by(t, false) == t);
    assert(trim_start_by(rest, false) == t);
    let u = value + seq!['"'] + post;
    assert(t.drop_first() =~= u);
    assert forall|j: int| 0 <= j < value.len() implies u[j] != '"' by {
        assert(u[j] == value[j]);
    }
    assert(u[value.len() as int] == '"');
    lemma_index_of_first_at(u, '"', value.len() as int);
    assert(u.take(value.len() as int) =~= value);
}

proof fn lemma_value_end_at(s: Seq<u8>, i: nat, e: nat)
    requires
        i <= e <= s.len(),
        forall|j: int| i <= j < e ==> !ends_value(#[trigger] s[j]),
        e == s.len() || ends_value(s[e as int]),
    ensures
        value_end(s, i) == e,
    decreases e - i,
{
    if i < e {
        lemma_value_end_at(s, i + 1, e);
    }
}

/// A number field as the sweep's JSON writes it, `"key":` and the number's text, is
/// found by `number_span` exactly around that text, when the text holds no `,`, `}` or
/// `]`, what follows starts with one of them (or is nothing), and no earlier `"key":`
/// occurs.
pub proof fn lemma_number_span_read_back(pre: Seq<u8>, key: Seq<u8>, value: Seq<u8>, post: Seq<u8>)
    requires
        forall|i: int| 0 <= i < value.len() ==> !ends_value(#[trigger] value[i]),
        post.len() == 0 || ends_value(post[0]),
        forall|j: int|
            0 <= j < pre.len() ==> !occurs_at(pre + key_pattern_bytes(key) + value + post, key_pattern_bytes(key), j),
    ensures
        number_span_spec(pre + key_pattern_bytes(key) + value + post, key) == Some(
            (
                (pre.len() + key_pattern_bytes(key).len()) as int,
                (pre.len() + key_pattern_bytes(key).len() + value.len()) as int,
            ),
        ),
{
    let pat = key_pattern_bytes(key);
    let text = pre + pat + value + post;
    let p = pre.len() as int;
    assert(text.subrange(p, p + pat.len()) =~= pat);
    lemma_find_from_at(text, pat, 0, p);
    let start = p + pat.len();
    let e = start + value.len();
    assert forall|j: int| start <= j < e implies !ends_value(#[trigger] text[j]) by {
        assert(text[j] == value[j - start]);
    }
    if post.len() > 0 {
        assert(text[e] == post[0]);
    }
    lemma_value_end_at(text, start as nat, e as nat);
}

} // verus!
