//! The integer side of the report: status code labels, the progress bar, histogram
//! bar lengths and the visible width of colored text.
use vstd::prelude::*;
use crate::text::chars_of;

verus! {

/// The description printed beside a status code.
pub open spec fn status_desc(code: u16) -> Seq<char> {
    if code == 200 { "OK"@ }
    else if code == 201 { "Created"@ }
    else if code == 204 { "No Content"@ }
    else if code == 301 { "Moved Permanently"@ }
    else if code == 302 { "Redirect"@ }
    else if code == 304 { "Not Modified"@ }
    else if code == 400 { "Bad Request"@ }
    else if code == 401 { "Unauthorized"@ }
    else if code == 403 { "Forbidden"@ }
    else if code == 404 { "Not Found"@ }
    else if code == 405 { "Method Not Allowed"@ }
    else if code == 408 { "Request Timeout"@ }
    else if code == 429 { "Too Many Requests"@ }
    else if code == 500 { "Internal Server Error"@ }
    else if code == 501 { "Not Implemented"@ }
    else if code == 502 { "Bad Gateway"@ }
    else if code == 503 { "Service Unavailable"@ }
    else if code == 504 { "Gateway Timeout"@ }
    else { "Unknown"@ }
}

/// The color of a status code's line: green for 2xx, amber for 3xx, orange-red for 4xx,
/// dark red for 5xx, none otherwise or without color.
pub open spec fn status_color(code: u16, use_color: bool) -> Seq<char> {
    if !use_color { ""@ }
    else if 200 <= code && code <= 299 { "\x1b[38;5;34m"@ }
    else if 300 <= code && code <= 399 { "\x1b[38;5;178m"@ }
    else if 400 <= code && code <= 499 { "\x1b[38;5;202m"@ }
    else if 500 <= code && code <= 599 { "\x1b[38;5;124m"@ }
    else { ""@ }
}

/// HTTP status code color and description.
pub fn status_info(code: u16, use_color: bool) -> (r: (&'static str, &'static str))
    ensures
        r.0@ == status_color(code, use_color),
        r.1@ == status_desc(code),
{
    let desc = match code {
        200 => "OK",
        201 => "Created",
        204 => "No Content",
        301 => "Moved Permanently",
        302 => "Redirect",
        304 => "Not Modified",
        400 => "Bad Request",
        401 => "Unauthorized",
        403 => "Forbidden",
        404 => "Not Found",
        405 => "Method Not Allowed",
        408 => "Request Timeout",
        429 => "Too Many Requests",
        500 => "Internal Server Error",
        501 => "Not Implemented",
        502 => "Bad Gateway",
        503 => "Service Unavailable",
        504 => "Gateway Timeout",
        _ => "Unknown",
    };
    if !use_color {
        return ("", desc);
    }
    let color = if 200 <= code && code <= 299 {
        "\x1b[38;5;34m"
    } else if 300 <= code && code <= 399 {
        "\x1b[38;5;178m"
    } else if 400 <= code && code <= 499 {
        "\x1b[38;5;202m"
    } else if 500 <= code && code <= 599 {
        "\x1b[38;5;124m"
    } else {
        ""
    };
    (color, desc)
}

/// A 2xx status.
pub fn is_success_status(code: u16) -> (r: bool)
    ensures
        r == (200 <= code && code < 300),
{
    200 <= code && code < 300
}

/// Characters counted so far and whether an escape sequence is open, after `s`.
pub open spec fn ansi_scan(s: Seq<char>) -> (nat, bool)
    decreases s.len(),
{
    if s.len() == 0 {
        (0, false)
    } else {
        let (n, in_esc) = ansi_scan(s.drop_last());
        let c = s.last();
        if in_esc {
            (n, c != 'm')
        } else if c == '\x1b' {
            (n, true)
        } else {
            (n + 1, false)
        }
    }
}

proof fn lemma_ansi_scan_le(s: Seq<char>)
    ensures
        ansi_scan(s).0 <= s.len(),
    decreases s.len(),
{
    if s.len() > 0 {
        lemma_ansi_scan_le(s.drop_last());
    }
}

/// The visible width of `s`: its characters outside escape sequences, an escape
/// sequence running from ESC to the next `m`.
pub fn strip_ansi_len(s: &str) -> (n: usize)
    ensures
        n == ansi_scan(s@).0,
{
    let v = chars_of(s);
    let mut len: usize = 0;
    let mut in_esc = false;
    let mut i: usize = 0;
    while i < v.len()
        invariant
            i <= v@.len(),
            v@ == s@,
            (len as nat, in_esc) == ansi_scan(v@.take(i as int)),
        decreases v@.len() - i,
    {
        let c = v[i];
        proof {
            assert(v@.take(i + 1).drop_last() =~= v@.take(i as int));
            lemma_ansi_scan_le(v@.take(i as int));
        }
        if in_esc {
            if c == 'm' {
                in_esc = false;
            }
        } else if c == '\x1b' {
            in_esc = true;
        } else {
            len += 1;
        }
        i += 1;
    }
    assert(v@.take(v@.len() as int) =~= v@);
    len
}

/// The width of the progress bar in cells.
pub const BAR_WIDTH: usize = 40;

/// Percent done (0 without a total) and the number of filled cells of the bar.
pub fn progress_bar(completed: usize, total: usize) -> (r: (usize, usize))
    requires
        completed * 100 <= usize::MAX,
        (if total > 0 { completed * 100 / (total as int) } else { 0 }) * 40 <= usize::MAX,
    ensures
        r.0 == if total > 0 { completed * 100 / (total as int) } else { 0 },
        r.1 == if r.0 * 40 / 100 < 40 { r.0 * 40 / 100 } else { 40 },
        r.1 <= BAR_WIDTH,
{
    let pct = if total > 0 { completed * 100 / total } else { 0 };
    assert(pct <= completed * 100) by {
        if total > 0 {
            vstd::arithmetic::div_mod::lemma_div_is_ordered_by_denominator((completed * 100) as int, 1, total as int);
        }
    }
    let filled = pct * BAR_WIDTH / 100;
    let filled = if filled < BAR_WIDTH { filled } else { BAR_WIDTH };
    (pct, filled)
}

/// The color of cell `i` of the progress bar: five shades of green from left to right.
pub fn bar_color(i: usize) -> (c: u8)
    requires
        i <= usize::MAX / 5,
    ensures
        c == (if i * 5 / 40 == 0 { 22u8 } else if i * 5 / 40 == 1 { 28u8 } else if i * 5 / 40 == 2 {
            34u8
        } else if i * 5 / 40 == 3 { 40u8 } else { 82u8 }),
{
    match i * 5 / BAR_WIDTH {
        0 => 22,
        1 => 28,
        2 => 34,
        3 => 40,
        _ => 82,
    }
}

/// The longest histogram bar.
pub const HIST_BAR_MAX: usize = 48;

/// The largest count, and at least 1.
pub open spec fn max_count(counts: Seq<usize>) -> nat
    decreases counts.len(),
{
    if counts.len() == 0 {
        1
    } else {
        let m = max_count(counts.drop_last());
        if counts.last() > m { counts.last() as nat } else { m }
    }
}

proof fn lemma_max_count(counts: Seq<usize>)
    ensures
        max_count(counts) >= 1,
        forall|i: int| 0 <= i < counts.len() ==> #[trigger] counts[i] <= max_count(counts),
        max_count(counts) == 1 || exists|i: int| 0 <= i < counts.len() && counts[i] == max_count(counts),
    decreases counts.len(),
{
    if counts.len() > 0 {
        let p = counts.drop_last();
        lemma_max_count(p);
        assert forall|i: int| 0 <= i < counts.len() implies #[trigger] counts[i] <= max_count(counts) by {
            if i < p.len() {
                assert(counts[i] == p[i]);
            }
        }
        if max_count(counts) != 1 {
            if counts.last() > max_count(p) {
                assert(counts[counts.len() - 1] == max_count(counts));
            } else {
                let j = choose|i: int| 0 <= i < p.len() && p[i] == max_count(p);
                assert(counts[j] == p[j]);
            }
        }
    }
}

/// The length of each histogram bar: its count scaled so that the largest count
/// (at least 1) fills 48 cells, rounding down.
pub fn histogram_bar_lengths(counts: &Vec<usize>) -> (bars: Vec<usize>)
    requires
        max_count(counts@) * 48 <= usize::MAX,
    ensures
        bars@.len() == counts@.len(),
        forall|i: int| 0 <= i < counts@.len() ==> #[trigger] bars@[i] == counts@[i] * 48 / (max_count(counts@) as int),
{
    let mut m: usize = 1;
    let mut i: usize = 0;
    while i < counts.len()
        invariant
            i <= counts@.len(),
            m == max_count(counts@.take(i as int)),
        decreases counts@.len() - i,
    {
        proof {
            assert(counts@.take(i + 1).drop_last() =~= counts@.take(i as int));
        }
        if counts[i] > m {
            m = counts[i];
        }
        i += 1;
    }
    assert(counts@.take(counts@.len() as int) =~= counts@);
    proof {
        lemma_max_count(counts@);
    }
    let mut bars: Vec<usize> = Vec::new();
    let mut j: usize = 0;
    while j < counts.len()
        invariant
            j <= counts@.len(),
            m == max_count(counts@),
            m >= 1,
            m * 48 <= usize::MAX,
            forall|k: int| 0 <= k < counts@.len() ==> #[trigger] counts@[k] <= m,
            bars@.len() == j,
            forall|k: int| 0 <= k < j ==> #[trigger] bars@[k] == counts@[k] * 48 / (max_count(counts@) as int),
        decreases counts@.len() - j,
    {
        let c = counts[j];
        assert(c * 48 <= m * 48) by (nonlinear_arith)
            requires c <= m;
        bars.push(c * HIST_BAR_MAX / m);
        j += 1;
    }
    bars
}

/// Histogram bars never exceed 48 cells, and a bucket with the largest count fills
/// exactly 48.
pub proof fn lemma_histogram_bars_bounded(counts: Seq<usize>, i: int)
    requires
        0 <= i < counts.len(),
    ensures
        counts[i] * 48 / (max_count(counts) as int) <= 48,
        counts[i] == max_count(counts) ==> counts[i] * 48 / (max_count(counts) as int) == 48,
{
    lemma_max_count(counts);
    let m = max_count(counts) as int;
    let c = counts[i] as int;
    assert(c * 48 <= m * 48) by (nonlinear_arith)
        requires c <= m;
    vstd::arithmetic::div_mod::lemma_div_is_ordered(c * 48, m * 48, m);
    vstd::arithmetic::div_mod::lemma_div_multiples_vanish(48, m);
    assert(m * 48 == 48 * m) by (nonlinear_arith);
}

/// Whether the rows are in ascending order of status code.
pub open spec fn rows_sorted(rows: Seq<(u16, usize)>) -> bool {
    forall|i: int, j: int| 0 <= i <= j < rows.len() ==> rows[i].0 <= rows[j].0
}

/// The status distribution's rows in ascending order of status code, for printing.
pub fn sort_status_rows(rows: &Vec<(u16, usize)>) -> (r: Vec<(u16, usize)>)
    ensures
        r@.to_multiset() == rows@.to_multiset(),
        rows_sorted(r@),
{
    let mut out: Vec<(u16, usize)> = Vec::new();
    let mut i: usize = 0;
    assert(rows@.take(0) =~= Seq::<(u16, usize)>::empty());
    while i < rows.len()
        invariant
            i <= rows@.len(),
            out@.to_multiset() == rows@.take(i as int).to_multiset(),
            rows_sorted(out@),
        decreases rows@.len() - i,
    {
        let x = rows[i];
        let mut p: usize = 0;
        while p < out.len() && out[p].0 <= x.0
            invariant
                p <= out@.len(),
                forall|k: int| 0 <= k < p ==> #[trigger] out@[k].0 <= x.0,
            decreases out@.len() - p,
        {
            p += 1;
        }
        let ghost before = out@;
        out.insert(p, x);
        proof {
            assert(rows@.take(i + 1) =~= rows@.take(i as int).push(x));
            vstd::seq_lib::to_multiset_insert(before, p as int, x);
            vstd::seq_lib::to_multiset_build(rows@.take(i as int), x);
            assert forall|a: int, b: int| 0 <= a <= b < out@.len() implies out@[a].0 <= out@[b].0 by {
                if a < p as int && b < p as int {
                    assert(out@[a] == before[a] && out@[b] == before[b]);
                } else if a < p as int && b == p as int {
                    assert(out@[a] == before[a]);
                } else if a < p as int {
                    assert(out@[a] == before[a] && out@[b] == before[b - 1]);
                } else if a == p as int && b > a {
                    assert(out@[b] == before[b - 1]);
                    assert(p < before.len());
                    assert(before[p as int].0 > x.0);
                    assert(before[p as int].0 <= before[b - 1].0);
                } else if a > p as int {
                    assert(out@[a] == before[a - 1] && out@[b] == before[b - 1]);
                }
            }
        }
        i += 1;
    }
    assert(rows@.take(rows@.len() as int) =~= rows@);
    out
}

/// The responses whose status is outside 2xx.
pub open spec fn non_success_sum(rows: Seq<(u16, usize)>) -> nat
    decreases rows.len(),
{
    if rows.len() == 0 {
        0
    } else {
        non_success_sum(rows.drop_last()) + if 200 <= rows.last().0 && rows.last().0 < 300 {
            0nat
        } else {
            rows.last().1 as nat
        }
    }
}

proof fn lemma_non_success_prefix(rows: Seq<(u16, usize)>, k: int)
    requires
        0 <= k <= rows.len(),
    ensures
        non_success_sum(rows.take(k)) <= non_success_sum(rows),
    decreases rows.len() - k,
{
    if k < rows.len() {
        assert(rows.drop_last().take(k) =~= rows.take(k));
        lemma_non_success_prefix(rows.drop_last(), k);
    } else {
        assert(rows.take(k) =~= rows);
    }
}

/// The counts the report prints beside the timings.
pub struct ReportCounts {
    /// Requests that did not end in a transport error.
    pub answered: u64,
    /// Bytes received per request, rounded down (0 without requests).
    pub size_per_request: u64,
    /// Transport errors plus responses with a status outside 2xx.
    pub failures: usize,
    /// Requests that are not failures (0 where the failures are as many as the requests).
    pub successful: usize,
}

/// The report's counts: non-2xx responses count as failures beside transport errors.
/// `None` where the errors outnumber the requests or the failures overflow a `usize`.
pub fn report_counts(total_requests: usize, total_errors: u64, total_bytes: u64, rows: &Vec<(u16, usize)>) -> (r:
    Option<ReportCounts>)
    ensures
        r is None <==> (total_errors > total_requests || total_errors + non_success_sum(rows@) > usize::MAX),
        r matches Some(c) ==> {
            &&& c.answered == total_requests - total_errors
            &&& c.size_per_request == if total_requests > 0 { total_bytes as int / (total_requests as int) } else { 0 }
            &&& c.failures == total_errors + non_success_sum(rows@)
            &&& c.successful == if total_requests > c.failures { total_requests - c.failures } else { 0 }
        },
{
    if total_errors > total_requests as u64 {
        return None;
    }
    let mut non_2xx: usize = 0;
    let mut i: usize = 0;
    while i < rows.len()
        invariant
            i <= rows@.len(),
            non_2xx == non_success_sum(rows@.take(i as int)),
        decreases rows@.len() - i,
    {
        proof {
            assert(rows@.take(i + 1).drop_last() =~= rows@.take(i as int));
            lemma_non_success_prefix(rows@, i + 1);
        }
        let (code, count) = rows[i];
        if !(200 <= code && code < 300) {
            match non_2xx.checked_add(count) {
                Some(n) => {
                    non_2xx = n;
                },
                None => {
                    proof {
                        lemma_non_success_prefix(rows@, i + 1);
                    }
                    return None;
                },
            }
        }
        i += 1;
    }
    assert(rows@.take(rows@.len() as int) =~= rows@);
    let failures = match (total_errors as usize).checked_add(non_2xx) {
        Some(f) => f,
        None => {
            return None;
        },
    };
    let answered = total_requests as u64 - total_errors;
    let size_per_request = if total_requests > 0 { total_bytes / total_requests as u64 } else { 0 };
    let successful = if total_requests > failures { total_requests - failures } else { 0 };
    Some(ReportCounts { answered, size_per_request, failures, successful })
}

/// Which responses count as failures: a row of `count` responses with status `code`
/// adds `count` exactly when the status is outside 2xx (below 200, or 300 and above,
/// so redirects count too), and nothing for a 2xx status.
pub proof fn lemma_failure_rows(rows: Seq<(u16, usize)>, code: u16, count: usize)
    ensures
        non_success_sum(rows.push((code, count))) == non_success_sum(rows) + if code < 200 || code >= 300 {
            count as nat
        } else {
            0nat
        },
{
    assert(rows.push((code, count)).drop_last() =~= rows);
    assert(rows.push((code, count)).last() == (code, count));
}

/// The responses outside 2xx counted over a list of rows add up over any split of it.
pub proof fn lemma_failure_rows_concat(a: Seq<(u16, usize)>, b: Seq<(u16, usize)>)
    ensures
        non_success_sum(a + b) == non_success_sum(a) + non_success_sum(b),
    decreases b.len(),
{
    if b.len() == 0 {
        assert(a + b =~= a);
    } else {
        lemma_failure_rows_concat(a, b.drop_last());
        assert((a + b).drop_last() =~= a + b.drop_last());
        assert((a + b).last() == b.last());
    }
}

} // verus!
