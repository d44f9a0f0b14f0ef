//! The flat benchmark's option handling: the duration option and the request headers.
use vstd::prelude::*;
use vstd::string::*;
use vstd::utf8::encode_utf8;
use crate::base64::{base64_encode, base64_spec};
use crate::sweep::DurationSpec;
use crate::text::{chars_of, parse_unsigned, parse_unsigned_range, push_char, trim, trim_bounds};
use crate::request::{index_of_first, lemma_index_of_first_at};

verus! {

/// What a duration option says in the flat benchmark's strict reading: `Xs` (the text
/// `X`, read as a number of seconds by the caller), `Xm`, `Xh` and bare `X`; `None`
/// where the number does not parse or minutes or hours overflow a `u64` of seconds.
pub open spec fn strict_duration(s: Seq<char>) -> Option<(bool, Seq<char>, nat)> {
    let t = trim(s);
    if t.len() > 0 && t.last() == 's' {
        Some((true, t.drop_last(), 0))
    } else if t.len() > 0 && (t.last() == 'm' || t.last() == 'h') {
        match parse_unsigned(t.drop_last(), u64::MAX as nat) {
            Some(v) => {
                let secs = v * if t.last() == 'm' { 60nat } else { 3600nat };
                if secs <= u64::MAX { Some((false, Seq::empty(), secs)) } else { None }
            },
            None => None,
        }
    } else {
        match parse_unsigned(t, u64::MAX as nat) {
            Some(v) => Some((false, Seq::empty(), v)),
            None => None,
        }
    }
}

/// Reads the `-z` duration option (`10s`, `1.5s`, `1m`, `2h`, `30`); `None` where it is
/// invalid.
pub fn parse_duration(s: &str) -> (r: Option<DurationSpec>)
    ensures
        r is None == strict_duration(s@) is None,
        r matches Some(DurationSpec::FractionalSecs(x)) ==> strict_duration(s@) == Some(
            (true, x@, 0nat),
        ),
        r matches Some(DurationSpec::Secs(n)) ==> strict_duration(s@) == Some(
            (false, Seq::<char>::empty(), n as nat),
        ),
{
    let v = chars_of(s);
    let (a, b) = trim_bounds(&v, 0, v.len(), false);
    assert(v@.subrange(0, v@.len() as int) =~= v@);
    let ghost t = v@.subrange(a as int, b as int);
    if b > a && v[b - 1] == 's' {
        let out = string_of_range(&v, a, b - 1);
        assert(t.drop_last() =~= v@.subrange(a as int, b - 1));
        Some(DurationSpec::FractionalSecs(out))
    } else if b > a && (v[b - 1] == 'm' || v[b - 1] == 'h') {
        assert(t.drop_last() =~= v@.subrange(a as int, b - 1));
        match parse_unsigned_range(&v, a, b - 1, u64::MAX) {
            Some(n) => {
                let mult: u64 = if v[b - 1] == 'm' { 60 } else { 3600 };
                match n.checked_mul(mult) {
                    Some(secs) => Some(DurationSpec::Secs(secs)),
                    None => None,
                }
            },
            None => None,
        }
    } else {
        match parse_unsigned_range(&v, a, b, u64::MAX) {
            Some(n) => Some(DurationSpec::Secs(n)),
            None => None,
        }
    }
}

/// The Unicode lowercase of a string, as `str::to_lowercase` computes it.
pub uninterp spec fn lowercase(s: Seq<char>) -> Seq<char>;

/// Lowercases a string (`str::to_lowercase`).
///
/// Trusted: claims of `str::to_lowercase` only that its result depends on the input
/// alone; which characters it maps where (the Unicode lowercase mapping) is left unstated.
#[verifier::external_body]
fn to_lowercase(s: &str) -> (r: String)
    ensures
        r@ == lowercase(s@),
{
    s.to_lowercase()
}

/// A `Key: Value` option split at its first `:`, both sides trimmed and the key
/// lowercased; `None` without a `:`.
pub open spec fn header_pair(raw: Seq<char>) -> Option<(Seq<char>, Seq<char>)> {
    let i = index_of_first(raw, ':');
    if i < raw.len() {
        Some((lowercase(trim(raw.take(i))), trim(raw.skip(i + 1))))
    } else {
        None
    }
}

pub(crate) fn string_of_range(v: &Vec<char>, a: usize, b: usize) -> (s: String)
    requires
        a <= b <= v@.len(),
    ensures
        s@ == v@.subrange(a as int, b as int),
{
    let mut out = String::new();
    let mut i = a;
    while i < b
        invariant
            a <= i <= b <= v@.len(),
            out@ == v@.subrange(a as int, i as int),
        decreases b - i,
    {
        push_char(&mut out, v[i]);
        i += 1;
        assert(out@ =~= v@.subrange(a as int, i as int));
    }
    out
}

/// Splits a custom header option (`-H "Accept: text/plain"`).
pub fn split_header(raw: &str) -> (r: Option<(String, String)>)
    ensures
        r is None == header_pair(raw@) is None,
        r matches Some((k, v)) ==> header_pair(raw@) == Some((k@, v@)),
{
    let v = chars_of(raw);
    let n = v.len();
    let mut i: usize = 0;
    while i < n && v[i] != ':'
        invariant
            i <= n == v@.len(),
            forall|j: int| 0 <= j < i ==> v@[j] != ':',
        decreases n - i,
    {
        i += 1;
    }
    proof {
        lemma_index_of_first_at(raw@, ':', i as int);
    }
    if i >= n {
        return None;
    }
    let (ka, kb) = trim_bounds(&v, 0, i, false);
    let (va, vb) = trim_bounds(&v, i + 1, n, false);
    assert(raw@.take(i as int) =~= v@.subrange(0, i as int));
    assert(raw@.skip(i + 1) =~= v@.subrange(i + 1, n as int));
    let key = string_of_range(&v, ka, kb);
    let value = string_of_range(&v, va, vb);
    Some((to_lowercase(key.as_str()), value))
}

/// The custom headers that split, in order.
pub open spec fn custom_headers(raw: Seq<Seq<char>>) -> Seq<(Seq<char>, Seq<char>)>
    decreases raw.len(),
{
    if raw.len() == 0 {
        Seq::empty()
    } else {
        custom_headers(raw.drop_last()) + match header_pair(raw.last()) {
            Some(p) => seq![p],
            None => Seq::empty(),
        }
    }
}

/// The headers of every request: `content-type`, `user-agent`, then `accept`,
/// `accept-encoding: identity` and `authorization: Basic <base64>` when asked for,
/// then the custom headers that split.
pub open spec fn header_list(
    content_type: Seq<char>,
    user_agent: Seq<char>,
    accept: Option<Seq<char>>,
    disable_compression: bool,
    auth: Option<Seq<char>>,
    custom: Seq<Seq<char>>,
) -> Seq<(Seq<char>, Seq<char>)> {
    seq![("content-type"@, content_type), ("user-agent"@, user_agent)] + match accept {
        Some(a) => seq![("accept"@, a)],
        None => Seq::empty(),
    } + if disable_compression {
        seq![("accept-encoding"@, "identity"@)]
    } else {
        Seq::empty()
    } + match auth {
        Some(a) => seq![("authorization"@, "Basic "@ + base64_spec(encode_utf8(a)))],
        None => Seq::empty(),
    } + custom_headers(custom)
}

/// The views of header pairs.
pub open spec fn pair_views(v: Seq<(String, String)>) -> Seq<(Seq<char>, Seq<char>)> {
    v.map_values(|p: (String, String)| (p.0@, p.1@))
}

/// The views of strings.
pub open spec fn string_views(v: Seq<String>) -> Seq<Seq<char>> {
    v.map_values(|s: String| s@)
}

fn push_pair(out: &mut Vec<(String, String)>, k: &str, v: String)
    ensures
        pair_views(final(out)@) == pair_views(old(out)@).push((k@, v@)),
{
    out.push((String::from_str(k), v));
    assert(pair_views(final(out)@) =~= pair_views(old(out)@).push((k@, v@)));
}

/// Builds the request headers.
pub fn build_headers(
    content_type: &str,
    user_agent: &str,
    accept: Option<&str>,
    disable_compression: bool,
    auth: Option<&str>,
    custom: &Vec<String>,
) -> (r: Vec<(String, String)>)
    ensures
        pair_views(r@) == header_list(
            content_type@,
            user_agent@,
            match accept {
                Some(a) => Some(a@),
                None => None,
            },
            disable_compression,
            match auth {
                Some(a) => Some(a@),
                None => None,
            },
            string_views(custom@),
        ),
{
    let mut h: Vec<(String, String)> = Vec::new();
    push_pair(&mut h, "content-type", String::from_str(content_type));
    push_pair(&mut h, "user-agent", String::from_str(user_agent));
    let ghost fixed = pair_views(h@);
    match accept {
        Some(a) => push_pair(&mut h, "accept", String::from_str(a)),
        None => {},
    }
    let ghost after_accept = pair_views(h@);
    if disable_compression {
        push_pair(&mut h, "accept-encoding", String::from_str("identity"));
    }
    let ghost after_enc = pair_views(h@);
    match auth {
        Some(a) => {
            let mut value = String::from_str("Basic ");
            let encoded = base64_encode(a.as_bytes());
            value.append(encoded.as_str());
            push_pair(&mut h, "authorization", value);
        },
        None => {},
    }
    let ghost before_custom = pair_views(h@);
    let mut i: usize = 0;
    while i < custom.len()
        invariant
            i <= custom@.len(),
            pair_views(h@) == before_custom + custom_headers(string_views(custom@).take(i as int)),
        decreases custom@.len() - i,
    {
        let ghost prev = pair_views(h@);
        match split_header(custom[i].as_str()) {
            Some((k, v)) => {
                h.push((k, v));
                assert(pair_views(h@) =~= prev.push((k@, v@)));
            },
            None => {},
        }
        proof {
            let t = string_views(custom@).take(i + 1);
            assert(t.drop_last() =~= string_views(custom@).take(i as int));
            assert(t.last() == custom@[i as int]@);
            assert(pair_views(h@) =~= before_custom + custom_headers(t));
        }
        i += 1;
    }
    assert(string_views(custom@).take(custom@.len() as int) =~= string_views(custom@));
    proof {
        let spec = header_list(
            content_type@,
            user_agent@,
            match accept {
                Some(a) => Some(a@),
                None => None,
            },
            disable_compression,
            match auth {
                Some(a) => Some(a@),
                None => None,
            },
            string_views(custom@),
        );
        assert(pair_views(h@) =~= spec);
    }
    h
}

/// Why the flat benchmark's options are refused, in the order they are checked.
#[derive(PartialEq, Eq, Structural, Clone, Copy, Debug)]
pub enum FlatArgError {
    /// `-c` is zero.
    ZeroConcurrency,
    /// `-n` is zero without `-z`.
    ZeroRequests,
    /// `-n` is below `-c` without `-z`.
    FewerRequestsThanWorkers,
}

/// Checks `-c` and `-n` (the request count only matters without a duration).
pub fn validate_counts(concurrency: usize, requests: usize, has_duration: bool) -> (r: Result<(), FlatArgError>)
    ensures
        r == (if concurrency == 0 {
            Err(FlatArgError::ZeroConcurrency)
        } else if !has_duration && requests == 0 {
            Err(FlatArgError::ZeroRequests)
        } else if !has_duration && requests < concurrency {
            Err(FlatArgError::FewerRequestsThanWorkers)
        } else {
            Ok(())
        }),
{
    if concurrency == 0 {
        Err(FlatArgError::ZeroConcurrency)
    } else if !has_duration && requests == 0 {
        Err(FlatArgError::ZeroRequests)
    } else if !has_duration && requests < concurrency {
        Err(FlatArgError::FewerRequestsThanWorkers)
    } else {
        Ok(())
    }
}

/// The number of requests a run is given: effectively unbounded (`usize::MAX / 2`) with a
/// duration, otherwise the requested count raised to at least `floor`.
pub fn request_target(requests: usize, floor: usize, has_duration: bool) -> (n: usize)
    ensures
        n == if has_duration {
            usize::MAX / 2
        } else if requests > floor {
            requests
        } else {
            floor
        },
{
    if has_duration {
        usize::MAX / 2
    } else if requests > floor {
        requests
    } else {
        floor
    }
}

/// Each optional request header is there exactly when its own option asks for it, at a
/// place fixed by the options before it: `content-type` and `user-agent` first; then
/// `accept` with an accept value; then `accept-encoding: identity` when compression is
/// disabled; then `authorization: Basic <base64 of user:pass>` whenever credentials are
/// given, whatever the other options; then the custom headers.
pub proof fn lemma_header_places(
    content_type: Seq<char>,
    user_agent: Seq<char>,
    accept: Option<Seq<char>>,
    disable_compression: bool,
    auth: Option<Seq<char>>,
    custom: Seq<Seq<char>>,
)
    ensures
        ({
            let h = header_list(content_type, user_agent, accept, disable_compression, auth, custom);
            let na: int = if accept is Some { 1 } else { 0 };
            let nd: int = if disable_compression { 1 } else { 0 };
            let nu: int = if auth is Some { 1 } else { 0 };
            &&& h.len() == 2 + na + nd + nu + custom_headers(custom).len()
            &&& h[0] == ("content-type"@, content_type)
            &&& h[1] == ("user-agent"@, user_agent)
            &&& (accept matches Some(a) ==> h[2] == ("accept"@, a))
            &&& (disable_compression ==> h[2 + na] == ("accept-encoding"@, "identity"@))
            &&& (auth matches Some(a) ==> h[2 + na + nd] == ("authorization"@, "Basic "@ + base64_spec(
                encode_utf8(a),
            )))
            &&& forall|j: int|
                0 <= j < custom_headers(custom).len() ==> #[trigger] h[2 + na + nd + nu + j]
                    == custom_headers(custom)[j]
        }),
{
    let h = header_list(content_type, user_agent, accept, disable_compression, auth, custom);
    let fixed = seq![("content-type"@, content_type), ("user-agent"@, user_agent)];
    let sa: Seq<(Seq<char>, Seq<char>)> = match accept {
        Some(a) => seq![("accept"@, a)],
        None => Seq::empty(),
    };
    let sd: Seq<(Seq<char>, Seq<char>)> = if disable_compression {
        seq![("accept-encoding"@, "identity"@)]
    } else {
        Seq::empty()
    };
    let su: Seq<(Seq<char>, Seq<char>)> = match auth {
        Some(a) => seq![("authorization"@, "Basic "@ + base64_spec(encode_utf8(a)))],
        None => Seq::empty(),
    };
    let c = custom_headers(custom);
    assert(h == fixed + sa + sd + su + c);
    let na: int = if accept is Some { 1 } else { 0 };
    let nd: int = if disable_compression { 1 } else { 0 };
    assert(h[0] == fixed[0]);
    assert(h[1] == fixed[1]);
    if accept is Some {
        assert(h[2] == sa[0]);
    }
    if disable_compression {
        assert(h[2 + na] == sd[0]);
    }
    if auth is Some {
        assert(h[2 + na + nd] == su[0]);
    }
}

} // verus!
