//! The concurrency sweep's own logic: its options, the `--conc` specification and the
//! level lists built from it, durations, the reference-curve lookup, JSON string
//! escaping and the memory size from `/proc/meminfo`.
use vstd::prelude::*;
use crate::text::{chars_of, parse_unsigned, parse_unsigned_range, push_char, trim, trim_bounds};
use crate::cli::string_of_range;
use crate::request::{index_of_first, lemma_index_of_first_at, lemma_index_of_first_nonneg};

verus! {

/// Selection algorithm for the sweet spot.
#[derive(PartialEq, Eq, Structural, Clone, Copy, Debug)]
pub enum PickStrategy {
    /// Smallest c reaching knee_ratio × peak_rps with tail within gates.
    Knee,
    /// argmax(rps / (p99/p50)²) — throughput × consistency².
    Score,
}

impl PickStrategy {
    /// The lowercase name the JSON output carries.
    pub fn json_name(&self) -> (s: &'static str)
        ensures
            *self == PickStrategy::Knee ==> s@ == "knee"@,
            *self == PickStrategy::Score ==> s@ == "score"@,
    {
        match self {
            PickStrategy::Knee => "knee",
            PickStrategy::Score => "score",
        }
    }
}

/// Why sweep options are refused, in the order they are checked.
#[derive(PartialEq, Eq, Structural, Clone, Copy, Debug)]
pub enum SweepArgError {
    /// `--baseline-c` is zero.
    BaselineC,
    /// `--repeats` is zero.
    Repeats,
    /// `--knee-ratio` is outside `(0, 1]`.
    KneeRatio,
    /// `--output` is not `text`, `json` or `ndjson`.
    Output,
}

pub open spec fn is_output_format(s: Seq<char>) -> bool {
    s == seq!['t', 'e', 'x', 't'] || s == seq!['j', 's', 'o', 'n'] || s == seq![
        'n',
        'd',
        'j',
        's',
        'o',
        'n',
    ]
}

fn chars_eq(v: &Vec<char>, w: &[char]) -> (r: bool)
    ensures
        r == (v@ == w@),
{
    if v.len() != w.len() {
        return false;
    }
    let mut i: usize = 0;
    while i < v.len()
        invariant
            v@.len() == w@.len(),
            i <= v@.len(),
            forall|j: int| 0 <= j < i ==> v@[j] == w@[j],
        decreases v@.len() - i,
    {
        if v[i] != w[i] {
            return false;
        }
        i += 1;
    }
    assert(v@ =~= w@);
    true
}

/// Checks the sweep options; `knee_ratio_ok` says whether the knee ratio lies in `(0, 1]`.
pub fn validate_args(baseline_c: usize, repeats: usize, knee_ratio_ok: bool, output: &str) -> (r: Result<(), SweepArgError>)
    ensures
        r == (if baseline_c == 0 {
            Err(SweepArgError::BaselineC)
        } else if repeats == 0 {
            Err(SweepArgError::Repeats)
        } else if !knee_ratio_ok {
            Err(SweepArgError::KneeRatio)
        } else if !is_output_format(output@) {
            Err(SweepArgError::Output)
        } else {
            Ok(())
        }),
{
    if baseline_c == 0 {
        return Err(SweepArgError::BaselineC);
    }
    if repeats == 0 {
        return Err(SweepArgError::Repeats);
    }
    if !knee_ratio_ok {
        return Err(SweepArgError::KneeRatio);
    }
    let v = chars_of(output);
    let text = ['t', 'e', 'x', 't'];
    let json = ['j', 's', 'o', 'n'];
    let ndjson = ['n', 'd', 'j', 's', 'o', 'n'];
    assert(text@ =~= seq!['t', 'e', 'x', 't']);
    assert(json@ =~= seq!['j', 's', 'o', 'n']);
    assert(ndjson@ =~= seq!['n', 'd', 'j', 's', 'o', 'n']);
    if chars_eq(&v, &text) || chars_eq(&v, &json) || chars_eq(&v, &ndjson) {
        Ok(())
    } else {
        Err(SweepArgError::Output)
    }
}

/// `|a - b|`.
pub open spec fn distance(a: int, b: int) -> int {
    if a > b { a - b } else { b - a }
}

/// The cached concurrency closest to `c`, the smaller one on a tie; `None` when there
/// is none.
pub fn nearest_concurrency(keys: &Vec<usize>, c: usize) -> (r: Option<usize>)
    ensures
        r is None == (keys@.len() == 0),
        r matches Some(k) ==> keys@.contains(k),
        r matches Some(k) ==> forall|j: int|
            0 <= j < keys@.len() ==> distance(k as int, c as int) < distance(#[trigger] keys@[j] as int, c as int)
                || (distance(k as int, c as int) == distance(keys@[j] as int, c as int) && k <= keys@[j]),
{
    if keys.len() == 0 {
        return None;
    }
    let mut best = keys[0];
    let mut best_i: usize = 0;
    let mut i: usize = 1;
    while i < keys.len()
        invariant
            1 <= i <= keys@.len(),
            best_i < keys@.len(),
            best == keys@[best_i as int],
            forall|j: int|
                0 <= j < i ==> distance(best as int, c as int) < distance(#[trigger] keys@[j] as int, c as int)
                    || (distance(best as int, c as int) == distance(keys@[j] as int, c as int) && best <= keys@[j]),
        decreases keys@.len() - i,
    {
        let k = keys[i];
        let dk = if k > c { k - c } else { c - k };
        let db = if best > c { best - c } else { c - best };
        if dk < db || (dk == db && k < best) {
            best = k;
            best_i = i;
        }
        i += 1;
    }
    Some(best)
}

/// A duration option: whole seconds, or the text of a fractional number of seconds
/// (`1.5s`) that the caller reads as a floating-point number.
#[derive(PartialEq, Eq, Clone, Debug)]
pub enum DurationSpec {
    /// The text before the `s` suffix.
    FractionalSecs(String),
    /// Whole seconds.
    Secs(u64),
}

/// What a duration option says, in the sweep's lenient reading: `Xs` (the text `X`),
/// `Xm`, `Xh` and bare `X` (a number that does not parse counts as zero); `None` where
/// minutes or hours overflow a `u64` of seconds.
pub open spec fn lenient_duration(s: Seq<char>) -> Option<(bool, Seq<char>, nat)> {
    let t = trim(s);
    if t.len() > 0 && t.last() == 's' {
        Some((true, t.drop_last(), 0))
    } else if t.len() > 0 && (t.last() == 'm' || t.last() == 'h') {
        let v = match parse_unsigned(t.drop_last(), u64::MAX as nat) {
            Some(v) => v,
            None => 0,
        };
        let secs = v * if t.last() == 'm' { 60nat } else { 3600nat };
        if secs <= u64::MAX { Some((false, Seq::empty(), secs)) } else { None }
    } else {
        Some((false, Seq::empty(), match parse_unsigned(t, u64::MAX as nat) {
            Some(v) => v,
            None => 0,
        }))
    }
}

/// Reads a per-run duration option of the sweep (`5s`, `1m`, `2h`, `30`). A value that
/// does not parse counts as zero; `None` where minutes or hours overflow.
pub fn parse_duration(s: &str) -> (r: Option<DurationSpec>)
    ensures
        r is None == lenient_duration(s@) is None,
        r matches Some(DurationSpec::FractionalSecs(x)) ==> lenient_duration(s@) == Some(
            (true, x@, 0nat),
        ),
        r matches Some(DurationSpec::Secs(n)) ==> lenient_duration(s@) == Some(
            (false, Seq::<char>::empty(), n as nat),
        ),
{
    let v = chars_of(s);
    let (a, b) = trim_bounds(&v, 0, v.len(), false);
    assert(v@.subrange(0, v@.len() as int) =~= v@);
    let ghost t = v@.subrange(a as int, b as int);
    if b > a && v[b - 1] == 's' {
        let out = string_of_range(&v, a, b - 1);
        assert(t.drop_last() =~= v@.subrange(a as int, b - 1));
        Some(DurationSpec::FractionalSecs(out))
    } else if b > a && (v[b - 1] == 'm' || v[b - 1] == 'h') {
        assert(t.drop_last() =~= v@.subrange(a as int, b - 1));
        let n = match parse_unsigned_range(&v, a, b - 1, u64::MAX) {
            Some(n) => n,
            None => 0,
        };
        let mult: u64 = if v[b - 1] == 'm' { 60 } else { 3600 };
        match n.checked_mul(mult) {
            Some(secs) => Some(DurationSpec::Secs(secs)),
            None => None,
        }
    } else {
        let n = match parse_unsigned_range(&v, a, b, u64::MAX) {
            Some(n) => n,
            None => 0,
        };
        Some(DurationSpec::Secs(n))
    }
}

/// Four lowercase hex digits.
pub open spec fn hex_lower(d: int) -> char {
    if d < 10 {
        ('0' as int + d) as char
    } else {
        ('a' as int + (d - 10)) as char
    }
}

/// How one character is written inside a JSON string: `"`, `\`, newline, carriage
/// return and tab get their short escapes, other control characters `\u00XX`,
/// everything else stays.
pub open spec fn json_escape(c: char) -> Seq<char> {
    if c == '"' {
        seq!['\\', '"']
    } else if c == '\\' {
        seq!['\\', '\\']
    } else if c == '\n' {
        seq!['\\', 'n']
    } else if c == '\r' {
        seq!['\\', 'r']
    } else if c == '\t' {
        seq!['\\', 't']
    } else if (c as u32) < 0x20 {
        seq!['\\', 'u', '0', '0', hex_lower((c as u32) as int / 16), hex_lower((c as u32) as int % 16)]
    } else {
        seq![c]
    }
}

/// The escaped characters of `s`.
pub open spec fn json_escaped(s: Seq<char>) -> Seq<char>
    decreases s.len(),
{
    if s.len() == 0 {
        Seq::empty()
    } else {
        json_escaped(s.drop_last()) + json_escape(s.last())
    }
}

fn hex_lower_exec(d: u32) -> (c: char)
    requires
        d < 16,
    ensures
        c == hex_lower(d as int),
{
    if d < 10 {
        ((48 + d) as u8) as char
    } else {
        ((97 + (d - 10)) as u8) as char
    }
}

/// Writes `s` as a quoted JSON string.
pub fn json_string(s: &str) -> (out: String)
    ensures
        out@ == seq!['"'] + json_escaped(s@) + seq!['"'],
{
    let v = chars_of(s);
    let mut out = String::new();
    push_char(&mut out, '"');
    let mut i: usize = 0;
    while i < v.len()
        invariant
            i <= v@.len(),
            v@ == s@,
            out@ == seq!['"'] + json_escaped(v@.take(i as int)),
        decreases v@.len() - i,
    {
        let c = v[i];
        let ghost before = out@;
        if c == '"' {
            push_char(&mut out, '\\');
            push_char(&mut out, '"');
        } else if c == '\\' {
            push_char(&mut out, '\\');
            push_char(&mut out, '\\');
        } else if c == '\n' {
            push_char(&mut out, '\\');
            push_char(&mut out, 'n');
        } else if c == '\r' {
            push_char(&mut out, '\\');
            push_char(&mut out, 'r');
        } else if c == '\t' {
            push_char(&mut out, '\\');
            push_char(&mut out, 't');
        } else if (c as u32) < 0x20 {
            push_char(&mut out, '\\');
            push_char(&mut out, 'u');
            push_char(&mut out, '0');
            push_char(&mut out, '0');
            push_char(&mut out, hex_lower_exec((c as u32) / 16));
            push_char(&mut out, hex_lower_exec((c as u32) % 16));
        } else {
            push_char(&mut out, c);
        }
        proof {
            assert(v@.take(i + 1).drop_last() =~= v@.take(i as int));
            assert(v@.take(i + 1).last() == c);
            assert(out@ =~= before + json_escape(c));
        }
        i += 1;
    }
    assert(v@.take(v@.len() as int) =~= v@);
    push_char(&mut out, '"');
    out
}

/// A JSON string written by `json_string` holds no raw control character: every
/// character below U+0020 of the input comes out escaped.
pub proof fn lemma_json_string_no_control(s: Seq<char>)
    ensures
        forall|i: int| 0 <= i < json_escaped(s).len() ==> (#[trigger] json_escaped(s)[i] as u32) >= 0x20,
    decreases s.len(),
{
    if s.len() > 0 {
        lemma_json_string_no_control(s.drop_last());
        let p = json_escaped(s.drop_last());
        let e = json_escape(s.last());
        assert forall|i: int| 0 <= i < json_escaped(s).len() implies (#[trigger] json_escaped(s)[i] as u32) >= 0x20 by {
            if i < p.len() {
                assert(json_escaped(s)[i] == p[i]);
            } else {
                assert(json_escaped(s)[i] == e[i - p.len()]);
                let c = s.last();
                if (c as u32) < 0x20 && c != '\n' && c != '\r' && c != '\t' {
                    assert((c as u32) / 16 < 2);
                }
            }
        }
    }
}

/// The index of the first `a` directly followed by `b`, or `s.len()` when there is none.
pub open spec fn index_of_pair(s: Seq<char>, a: char, b: char) -> int
    decreases s.len(),
{
    if s.len() < 2 {
        s.len() as int
    } else if s[0] == a && s[1] == b {
        0
    } else {
        1 + index_of_pair(s.drop_first(), a, b)
    }
}

/// The pieces of `s` between commas, as `str::split(',')` yields them.
pub open spec fn split_commas(s: Seq<char>) -> Seq<Seq<char>>
    decreases s.len(),
{
    let i = index_of_first(s, ',');
    if i >= s.len() {
        seq![s]
    } else {
        proof {
            lemma_index_of_first_nonneg(s, ',');
        }
        seq![s.take(i)] + split_commas(s.skip(i + 1))
    }
}

/// The pieces that parse as `usize` after trimming, in order.
pub open spec fn comma_levels(pieces: Seq<Seq<char>>) -> Seq<usize>
    decreases pieces.len(),
{
    if pieces.len() == 0 {
        Seq::empty()
    } else {
        comma_levels(pieces.drop_last()) + match parse_unsigned(trim(pieces.last()), usize::MAX as nat) {
            Some(n) => seq![n as usize],
            None => Seq::empty(),
        }
    }
}

/// `lo, lo + step, ...` up to `hi` (nothing when `lo > hi`).
pub open spec fn step_levels(lo: int, hi: int, step: int) -> Seq<usize> {
    Seq::new(if lo > hi { 0 } else { ((hi - lo) / step + 1) as nat }, |k: int| (lo + k * step) as usize)
}

/// The number in `t` after trimming, or `default` when it does not parse.
pub open spec fn parse_or(t: Seq<char>, default: usize) -> usize {
    match parse_unsigned(trim(t), usize::MAX as nat) {
        Some(n) => n as usize,
        None => default,
    }
}

/// What a `--conc` specification asks for.
pub ghost enum ConcPlan {
    /// These levels.
    Levels(Seq<usize>),
    /// `n` log-spaced levels from `lo` to `hi`.
    LogSpaced(usize, usize, usize),
    /// The automatic range (7 log-spaced levels from 10 to 1000) above the baseline.
    AutoAbove(usize),
}

/// The levels a `--conc` specification asks for.
#[derive(PartialEq, Eq, Clone, Debug)]
pub enum ConcSpec {
    /// Exactly these concurrency levels.
    Levels(Vec<usize>),
    /// `n` log-spaced levels from `lo` to `hi`.
    LogSpaced { lo: usize, hi: usize, n: usize },
    /// The automatic range (7 log-spaced levels from 10 to 1000), keeping only the
    /// levels above the baseline concurrency.
    AutoAbove(usize),
}

impl View for ConcSpec {
    type V = ConcPlan;

    open spec fn view(&self) -> ConcPlan {
        match self {
            ConcSpec::Levels(v) => ConcPlan::Levels(v@),
            ConcSpec::LogSpaced { lo, hi, n } => ConcPlan::LogSpaced(*lo, *hi, *n),
            ConcSpec::AutoAbove(b) => ConcPlan::AutoAbove(*b),
        }
    }
}

/// A `lo..hi:key=val` range specification, when `s` is one with a known key.
pub open spec fn range_plan(s: Seq<char>) -> Option<ConcPlan> {
    let i = index_of_first(s, ':');
    if i >= s.len() {
        None
    } else {
        let range = s.take(i);
        let opt = s.skip(i + 1);
        let j = index_of_pair(range, '.', '.');
        if j >= range.len() {
            None
        } else {
            let lo = parse_or(range.take(j), 10);
            let hi = parse_or(range.skip(j + 2), 1000);
            let k = index_of_first(opt, '=');
            if k >= opt.len() {
                Some(ConcPlan::LogSpaced(lo, hi, 6))
            } else {
                let key = trim(opt.take(k));
                let val = opt.skip(k + 1);
                if key == seq!['l', 'o', 'g'] {
                    Some(ConcPlan::LogSpaced(lo, hi, match parse_unsigned(val, usize::MAX as nat) {
                        Some(n) => n as usize,
                        None => 6,
                    }))
                } else if key == seq!['s', 't', 'e', 'p'] {
                    let step = match parse_unsigned(val, usize::MAX as nat) {
                        Some(n) => n,
                        None => 50,
                    };
                    Some(ConcPlan::Levels(step_levels(lo as int, hi as int, if step > 1 { step as int } else { 1 })))
                } else {
                    None
                }
            }
        }
    }
}

/// A comma-separated list, a single number, or else the automatic range.
pub open spec fn fallback_plan(s: Seq<char>) -> ConcPlan {
    if s.contains(',') {
        ConcPlan::Levels(comma_levels(split_commas(s)))
    } else {
        match parse_unsigned(s, usize::MAX as nat) {
            Some(n) => ConcPlan::Levels(seq![n as usize]),
            None => ConcPlan::LogSpaced(10, 1000, 7),
        }
    }
}

/// The levels of a `--conc` specification: `auto`, a range with `log=` or `step=`,
/// a comma-separated list (pieces that do not parse are skipped), a single number,
/// and otherwise the automatic range without the baseline filter.
pub open spec fn conc_plan(spec: Seq<char>, baseline_c: usize) -> ConcPlan {
    let s = trim(spec);
    if s == seq!['a', 'u', 't', 'o'] {
        ConcPlan::AutoAbove(baseline_c)
    } else {
        match range_plan(s) {
            Some(p) => p,
            None => fallback_plan(s),
        }
    }
}

/// The first `c` in `v[lo..hi]`, or `hi`.
pub(crate) fn find_char(v: &Vec<char>, lo: usize, hi: usize, c: char) -> (r: usize)
    requires
        lo <= hi <= v@.len(),
    ensures
        lo <= r <= hi,
        r - lo == index_of_first(v@.subrange(lo as int, hi as int), c),
{
    let ghost t = v@.subrange(lo as int, hi as int);
    let mut i = lo;
    while i < hi && v[i] != c
        invariant
            lo <= i <= hi <= v@.len(),
            t == v@.subrange(lo as int, hi as int),
            forall|j: int| 0 <= j < i - lo ==> t[j] != c,
        decreases hi - i,
    {
        i += 1;
    }
    proof {
        if i < hi {
            assert(t[i - lo] == v@[i as int]);
        }
        lemma_index_of_first_at(t, c, i - lo);
    }
    i
}

proof fn lemma_index_of_pair_at(s: Seq<char>, a: char, b: char, k: int)
    requires
        0 <= k <= s.len(),
        forall|j: int| 0 <= j < k && j + 1 < s.len() ==> !(#[trigger] s[j] == a && s[j + 1] == b),
        k == s.len() || (k + 1 < s.len() && s[k] == a && s[k + 1] == b),
    ensures
        index_of_pair(s, a, b) == k,
    decreases k,
{
    if s.len() < 2 {
    } else if k > 0 {
        lemma_index_of_pair_at(s.drop_first(), a, b, k - 1);
    }
}

/// The first `a` directly followed by `b` in `v[lo..hi]`, or `hi`.
fn find_pair(v: &Vec<char>, lo: usize, hi: usize, a: char, b: char) -> (r: usize)
    requires
        lo <= hi <= v@.len(),
    ensures
        lo <= r <= hi,
        r < hi ==> r + 1 < hi,
        r - lo == index_of_pair(v@.subrange(lo as int, hi as int), a, b),
{
    let ghost t = v@.subrange(lo as int, hi as int);
    let mut i = lo;
    while hi - i > 1 && !(v[i] == a && v[i + 1] == b)
        invariant
            lo <= i <= hi <= v@.len(),
            t == v@.subrange(lo as int, hi as int),
            forall|j: int| 0 <= j < i - lo && j + 1 < t.len() ==> !(#[trigger] t[j] == a && t[j + 1] == b),
        decreases hi - i,
    {
        i += 1;
    }
    if hi - i > 1 {
        proof {
            assert(t[i - lo] == v@[i as int]);
            assert(t[i - lo + 1] == v@[i + 1]);
            lemma_index_of_pair_at(t, a, b, i - lo);
        }
        i
    } else {
        proof {
            assert forall|j: int| 0 <= j < t.len() && j + 1 < t.len() implies !(#[trigger] t[j] == a && t[j + 1] == b) by {
                if j >= i - lo {
                    assert(false);
                }
            }
            lemma_index_of_pair_at(t, a, b, t.len() as int);
        }
        hi
    }
}

/// Whether `v[lo..hi]` is exactly `w`.
fn range_is(v: &Vec<char>, lo: usize, hi: usize, w: &[char]) -> (r: bool)
    requires
        lo <= hi <= v@.len(),
    ensures
        r == (v@.subrange(lo as int, hi as int) == w@),
{
    let ghost t = v@.subrange(lo as int, hi as int);
    if hi - lo != w.len() {
        return false;
    }
    let mut i: usize = 0;
    while i < w.len()
        invariant
            lo + w@.len() == hi <= v@.len(),
            i <= w@.len(),
            t == v@.subrange(lo as int, hi as int),
            forall|j: int| 0 <= j < i ==> t[j] == w@[j],
        decreases w@.len() - i,
    {
        if v[lo + i] != w[i] {
            assert(t[i as int] == v@[lo + i]);
            return false;
        }
        i += 1;
    }
    assert(t =~= w@);
    true
}

/// The trimmed number in `v[lo..hi]`, or `default`.
fn parse_or_range(v: &Vec<char>, lo: usize, hi: usize, default: usize) -> (r: usize)
    requires
        lo <= hi <= v@.len(),
    ensures
        r == parse_or(v@.subrange(lo as int, hi as int), default),
{
    let (a, b) = trim_bounds(v, lo, hi, false);
    match parse_unsigned_range(v, a, b, usize::MAX as u64) {
        Some(n) => n as usize,
        None => default,
    }
}

/// `lo, lo + step, ...` while not above `hi` (`(lo..=hi).step_by(step)`).
pub fn step_range(lo: usize, hi: usize, step: usize) -> (v: Vec<usize>)
    requires
        step >= 1,
    ensures
        v@ == step_levels(lo as int, hi as int, step as int),
{
    let mut v: Vec<usize> = Vec::new();
    if lo > hi {
        assert(v@ =~= step_levels(lo as int, hi as int, step as int));
        return v;
    }
    let mut x = lo;
    assert(v@.len() * step == 0) by (nonlinear_arith)
        requires v@.len() == 0;
    loop
        invariant_except_break
            lo <= x <= hi,
            x == lo + v@.len() * step,
            forall|j: int| 0 <= j < v@.len() ==> #[trigger] v@[j] == lo + j * step,
        invariant
            lo <= hi,
            step >= 1,
        ensures
            v@.len() >= 1,
            lo + (v@.len() - 1) * step <= hi < lo + v@.len() * step,
            forall|j: int| 0 <= j < v@.len() ==> #[trigger] v@[j] == lo + j * step,
        decreases hi - x,
    {
        v.push(x);
        proof {
            assert(lo + (v@.len() - 1) * step == x);
            assert(lo + v@.len() * step == x + step) by (nonlinear_arith)
                requires lo + (v@.len() - 1) * step == x;
        }
        match x.checked_add(step) {
            Some(y) => {
                if y > hi {
                    break;
                }
                x = y;
            },
            None => {
                break;
            },
        }
    }
    proof {
        let k = v@.len() as int;
        let r = hi - lo - (k - 1) * step;
        assert(k * step == (k - 1) * step + step) by (nonlinear_arith);
        vstd::arithmetic::div_mod::lemma_fundamental_div_mod_converse(hi - lo, step as int, k - 1, r);
        assert(v@ =~= step_levels(lo as int, hi as int, step as int));
    }
    v
}

/// The levels above `floor`, in order.
pub open spec fn above(levels: Seq<usize>, floor: usize) -> Seq<usize> {
    levels.filter(|c: usize| c > floor)
}

/// Keeps the levels above `floor`, in order.
pub fn levels_above(levels: &Vec<usize>, floor: usize) -> (r: Vec<usize>)
    ensures
        r@ == above(levels@, floor),
{
    let mut r: Vec<usize> = Vec::new();
    let mut i: usize = 0;
    while i < levels.len()
        invariant
            i <= levels@.len(),
            r@ == above(levels@.take(i as int), floor),
        decreases levels@.len() - i,
    {
        proof {
            reveal_with_fuel(Seq::filter, 1);
            assert(levels@.take(i + 1).drop_last() =~= levels@.take(i as int));
        }
        if levels[i] > floor {
            r.push(levels[i]);
        }
        i += 1;
    }
    assert(levels@.take(levels@.len() as int) =~= levels@);
    r
}

/// The levels other than `c`, in order.
pub open spec fn except(levels: Seq<usize>, c: usize) -> Seq<usize> {
    levels.filter(|x: usize| x != c)
}

/// Drops the level `c` (the center of a refinement bracket, measured already).
pub fn levels_except(levels: &Vec<usize>, c: usize) -> (r: Vec<usize>)
    ensures
        r@ == except(levels@, c),
{
    let mut r: Vec<usize> = Vec::new();
    let mut i: usize = 0;
    while i < levels.len()
        invariant
            i <= levels@.len(),
            r@ == except(levels@.take(i as int), c),
        decreases levels@.len() - i,
    {
        proof {
            reveal_with_fuel(Seq::filter, 1);
            assert(levels@.take(i + 1).drop_last() =~= levels@.take(i as int));
        }
        if levels[i] != c {
            r.push(levels[i]);
        }
        i += 1;
    }
    assert(levels@.take(levels@.len() as int) =~= levels@);
    r
}

/// A concurrency level is at least 1.
pub open spec fn at_least_one(x: usize) -> usize {
    if x < 1 { 1 } else { x }
}

/// The levels made of raw log-spaced points: each raised to at least 1, and of a run of
/// equal neighbours only one kept.
pub open spec fn dedup_levels_spec(s: Seq<usize>) -> Seq<usize>
    decreases s.len(),
{
    if s.len() == 0 {
        Seq::empty()
    } else {
        let d = dedup_levels_spec(s.drop_last());
        let x = at_least_one(s.last());
        if d.len() > 0 && d.last() == x {
            d
        } else {
            d.push(x)
        }
    }
}

/// Turns raw log-spaced points into concurrency levels (see `dedup_levels_spec`).
pub fn dedup_levels(raw: &Vec<usize>) -> (r: Vec<usize>)
    ensures
        r@ == dedup_levels_spec(raw@),
{
    let mut out: Vec<usize> = Vec::new();
    let mut i: usize = 0;
    while i < raw.len()
        invariant
            i <= raw@.len(),
            out@ == dedup_levels_spec(raw@.take(i as int)),
        decreases raw@.len() - i,
    {
        proof {
            assert(raw@.take(i + 1).drop_last() =~= raw@.take(i as int));
        }
        let x = if raw[i] < 1 { 1 } else { raw[i] };
        let n = out.len();
        if n == 0 || out[n - 1] != x {
            out.push(x);
        }
        i += 1;
    }
    assert(raw@.take(raw@.len() as int) =~= raw@);
    out
}

/// Nondecreasing raw points give strictly increasing levels, no more of them than
/// points, starting at the first point and ending at the last (each raised to at least 1).
pub proof fn lemma_dedup_levels_increasing(s: Seq<usize>)
    requires
        forall|i: int, j: int| 0 <= i <= j < s.len() ==> s[i] <= s[j],
    ensures
        forall|i: int, j: int|
            0 <= i < j < dedup_levels_spec(s).len() ==> dedup_levels_spec(s)[i] < dedup_levels_spec(s)[j],
        dedup_levels_spec(s).len() <= s.len(),
        s.len() > 0 ==> dedup_levels_spec(s).len() > 0 && dedup_levels_spec(s)[0] == at_least_one(s[0])
            && dedup_levels_spec(s).last() == at_least_one(s.last()),
    decreases s.len(),
{
    if s.len() > 0 {
        let p = s.drop_last();
        assert forall|i: int, j: int| 0 <= i <= j < p.len() implies p[i] <= p[j] by {
            assert(p[i] == s[i] && p[j] == s[j]);
        }
        lemma_dedup_levels_increasing(p);
        let d = dedup_levels_spec(p);
        let x = at_least_one(s.last());
        if p.len() > 0 {
            assert(p.last() == s[s.len() - 2]);
            assert(d.last() <= x);
            assert(p[0] == s[0]);
        }
        if !(d.len() > 0 && d.last() == x) {
            let e = d.push(x);
            assert forall|i: int, j: int| 0 <= i < j < e.len() implies e[i] < e[j] by {
                if j == e.len() - 1 {
                    assert(e[j] == x);
                    assert(e[i] == d[i]);
                    if i < d.len() - 1 {
                        assert(d[i] < d[d.len() - 1]);
                    }
                } else {
                    assert(e[i] == d[i] && e[j] == d[j]);
                }
            }
        }
    }
}

proof fn lemma_split_commas_step(t: Seq<char>, start: int, e: int)
    requires
        0 <= start <= e <= t.len(),
        e - start == index_of_first(t.subrange(start, t.len() as int), ','),
    ensures
        e == t.len() ==> split_commas(t.subrange(start, t.len() as int)) == seq![t.subrange(start, e)],
        e < t.len() ==> split_commas(t.subrange(start, t.len() as int)) == seq![t.subrange(start, e)]
            + split_commas(t.subrange(e + 1, t.len() as int)),
{
    let u = t.subrange(start, t.len() as int);
    assert(u.take(e - start) =~= t.subrange(start, e));
    if e < t.len() {
        assert(u.skip(e - start + 1) =~= t.subrange(e + 1, t.len() as int));
    } else {
        assert(u =~= t.subrange(start, e));
    }
}

/// The comma-separated levels of `v[a..b]`.
fn comma_list(v: &Vec<char>, a: usize, b: usize) -> (r: Vec<usize>)
    requires
        a <= b <= v@.len(),
    ensures
        r@ == comma_levels(split_commas(v@.subrange(a as int, b as int))),
{
    let ghost t = v@.subrange(a as int, b as int);
    let ghost mut done: Seq<Seq<char>> = Seq::empty();
    let mut out: Vec<usize> = Vec::new();
    let mut start = a;
    assert(t.subrange(0, t.len() as int) =~= t);
    assert(done + split_commas(t) =~= split_commas(t));
    loop
        invariant_except_break
            split_commas(t) == done + split_commas(t.subrange(start - a, t.len() as int)),
        invariant
            a <= start <= b <= v@.len(),
            t == v@.subrange(a as int, b as int),
            out@ == comma_levels(done),
        ensures
            split_commas(t) == done,
        decreases b - start,
    {
        let e = find_char(v, start, b, ',');
        proof {
            assert(t.subrange(start - a, t.len() as int) =~= v@.subrange(start as int, b as int));
            lemma_split_commas_step(t, start - a, e - a);
            assert(t.subrange(start - a, e - a) =~= v@.subrange(start as int, e as int));
            if e < b {
                assert(t.subrange(e + 1 - a, t.len() as int) =~= v@.subrange(e + 1, b as int));
            }
        }
        let (x, y) = trim_bounds(v, start, e, false);
        let parsed = parse_unsigned_range(v, x, y, usize::MAX as u64);
        proof {
            let piece = v@.subrange(start as int, e as int);
            assert((done.push(piece)).drop_last() =~= done);
        }
        match parsed {
            Some(n) => out.push(n as usize),
            None => {},
        }
        proof {
            let piece = v@.subrange(start as int, e as int);
            done = done.push(piece);
            if e < b {
                assert(split_commas(t) =~= done + split_commas(t.subrange(e + 1 - a, t.len() as int)));
            } else {
                assert(split_commas(t) =~= done);
            }
        }
        if e >= b {
            break;
        }
        start = e + 1;
    }
    out
}

/// The range form `lo..hi:key=val` of `v[a..b]`, when it is one with a known key.
fn range_conc(v: &Vec<char>, a: usize, b: usize) -> (r: Option<ConcSpec>)
    requires
        a <= b <= v@.len(),
    ensures
        r matches Some(x) ==> range_plan(v@.subrange(a as int, b as int)) == Some(x@),
        r is None ==> range_plan(v@.subrange(a as int, b as int)) is None,
{
    let ghost s = v@.subrange(a as int, b as int);
    let i = find_char(v, a, b, ':');
    if i >= b {
        return None;
    }
    let ghost range = s.take(i - a);
    let ghost opt = s.skip(i - a + 1);
    assert(range =~= v@.subrange(a as int, i as int));
    assert(opt =~= v@.subrange(i + 1, b as int));
    let j = find_pair(v, a, i, '.', '.');
    if j >= i {
        return None;
    }
    assert(range.take(j - a) =~= v@.subrange(a as int, j as int));
    assert(range.skip(j - a + 2) =~= v@.subrange(j + 2, i as int));
    let lo = parse_or_range(v, a, j, 10);
    let hi = parse_or_range(v, j + 2, i, 1000);
    let k = find_char(v, i + 1, b, '=');
    if k >= b {
        return Some(ConcSpec::LogSpaced { lo, hi, n: 6 });
    }
    assert(opt.take(k - i - 1) =~= v@.subrange(i + 1, k as int));
    assert(opt.skip(k - i) =~= v@.subrange(k + 1, b as int));
    let (ka, kb) = trim_bounds(v, i + 1, k, false);
    let log = ['l', 'o', 'g'];
    let step_word = ['s', 't', 'e', 'p'];
    assert(log@ =~= seq!['l', 'o', 'g']);
    assert(step_word@ =~= seq!['s', 't', 'e', 'p']);
    if range_is(v, ka, kb, &log) {
        let n = match parse_unsigned_range(v, k + 1, b, usize::MAX as u64) {
            Some(n) => n as usize,
            None => 6,
        };
        Some(ConcSpec::LogSpaced { lo, hi, n })
    } else if range_is(v, ka, kb, &step_word) {
        let step = match parse_unsigned_range(v, k + 1, b, usize::MAX as u64) {
            Some(n) => n as usize,
            None => 50,
        };
        let step = if step > 1 { step } else { 1 };
        Some(ConcSpec::Levels(step_range(lo, hi, step)))
    } else {
        None
    }
}

/// The list, single-number or default form of `v[a..b]`.
fn fallback_conc(v: &Vec<char>, a: usize, b: usize) -> (r: ConcSpec)
    requires
        a <= b <= v@.len(),
    ensures
        r@ == fallback_plan(v@.subrange(a as int, b as int)),
{
    let ghost s = v@.subrange(a as int, b as int);
    let c = find_char(v, a, b, ',');
    proof {
        if c < b {
            lemma_index_of_first_found(s, ',');
            assert(s.contains(','));
        } else {
            assert forall|q: int| 0 <= q < s.len() implies s[q] != ',' by {
                if s[q] == ',' {
                    lemma_first_le(s, ',', q);
                }
            }
        }
    }
    if c < b {
        return ConcSpec::Levels(comma_list(v, a, b));
    }
    match parse_unsigned_range(v, a, b, usize::MAX as u64) {
        Some(n) => {
            let mut one: Vec<usize> = Vec::new();
            one.push(n as usize);
            assert(one@ =~= seq![n as usize]);
            ConcSpec::Levels(one)
        },
        None => ConcSpec::LogSpaced { lo: 10, hi: 1000, n: 7 },
    }
}

/// Reads a `--conc` specification.
pub fn resolve_conc_spec(spec: &str, baseline_c: usize) -> (r: ConcSpec)
    ensures
        r@ == conc_plan(spec@, baseline_c),
{
    let v = chars_of(spec);
    let (a, b) = trim_bounds(&v, 0, v.len(), false);
    assert(v@.subrange(0, v@.len() as int) =~= v@);
    let auto = ['a', 'u', 't', 'o'];
    assert(auto@ =~= seq!['a', 'u', 't', 'o']);
    if range_is(&v, a, b, &auto) {
        return ConcSpec::AutoAbove(baseline_c);
    }
    match range_conc(&v, a, b) {
        Some(x) => x,
        None => fallback_conc(&v, a, b),
    }
}

proof fn lemma_index_of_first_found(s: Seq<char>, c: char)
    ensures
        index_of_first(s, c) < s.len() ==> s[index_of_first(s, c)] == c,
    decreases s.len(),
{
    lemma_index_of_first_nonneg(s, c);
    if s.len() > 0 && s[0] != c {
        lemma_index_of_first_found(s.drop_first(), c);
        lemma_index_of_first_nonneg(s.drop_first(), c);
    }
}

proof fn lemma_first_le(s: Seq<char>, c: char, q: int)
    requires
        0 <= q < s.len(),
        s[q] == c,
    ensures
        index_of_first(s, c) <= q,
    decreases q,
{
    if q > 0 && s[0] != c {
        lemma_first_le(s.drop_first(), c, q - 1);
    }
}

/// The refinement levels worth measuring: those of `bracket` that are positive and were
/// not measured in the coarse sweep, in order.
pub open spec fn fresh_levels(bracket: Seq<usize>, coarse: Seq<usize>) -> Seq<usize> {
    bracket.filter(|c: usize| !coarse.contains(c) && c > 0)
}

fn contains_level(v: &Vec<usize>, c: usize) -> (r: bool)
    ensures
        r == v@.contains(c),
{
    let mut i: usize = 0;
    while i < v.len()
        invariant
            i <= v@.len(),
            forall|j: int| 0 <= j < i ==> v@[j] != c,
        decreases v@.len() - i,
    {
        if v[i] == c {
            return true;
        }
        i += 1;
    }
    false
}

/// Keeps the refinement levels that are positive and new.
pub fn new_levels(bracket: &Vec<usize>, coarse: &Vec<usize>) -> (r: Vec<usize>)
    ensures
        r@ == fresh_levels(bracket@, coarse@),
{
    let mut r: Vec<usize> = Vec::new();
    let mut i: usize = 0;
    while i < bracket.len()
        invariant
            i <= bracket@.len(),
            r@ == fresh_levels(bracket@.take(i as int), coarse@),
        decreases bracket@.len() - i,
    {
        proof {
            reveal_with_fuel(Seq::filter, 1);
            assert(bracket@.take(i + 1).drop_last() =~= bracket@.take(i as int));
        }
        let c = bracket[i];
        if !contains_level(coarse, c) && c > 0 {
            r.push(c);
        }
        i += 1;
    }
    assert(bracket@.take(bracket@.len() as int) =~= bracket@);
    r
}

/// The characters `MemTotal:`.
pub open spec fn mem_total_key() -> Seq<char> {
    seq!['M', 'e', 'm', 'T', 'o', 't', 'a', 'l', ':']
}

/// The lines of `text` (pieces between newlines), from the first on.
pub open spec fn lines_from(text: Seq<char>) -> Seq<Seq<char>>
    decreases text.len(),
{
    let i = index_of_first(text, '\n');
    if i >= text.len() {
        seq![text]
    } else {
        proof {
            lemma_index_of_first_nonneg(text, '\n');
        }
        seq![text.take(i)] + lines_from(text.skip(i + 1))
    }
}

/// The text up to its first whitespace character.
pub open spec fn first_word(t: Seq<char>) -> Seq<char>
    decreases t.len(),
{
    if t.len() == 0 || crate::text::is_ws(t[0]) {
        Seq::empty()
    } else {
        seq![t[0]] + first_word(t.drop_first())
    }
}

/// The memory size in MiB from `/proc/meminfo` text: the first line that starts with
/// `MemTotal:` decides; its first word must be a number of KiB, divided by 1024.
pub open spec fn mem_total_in(lines: Seq<Seq<char>>) -> Option<nat>
    decreases lines.len(),
{
    if lines.len() == 0 {
        None
    } else if lines[0].len() >= 9 && lines[0].take(9) == mem_total_key() {
        match parse_unsigned(first_word(trim(lines[0].skip(9))), u64::MAX as nat) {
            Some(kb) => Some(kb / 1024),
            None => None,
        }
    } else {
        mem_total_in(lines.drop_first())
    }
}

proof fn lemma_first_word_at(t: Seq<char>, k: int)
    requires
        0 <= k <= t.len(),
        forall|j: int| 0 <= j < k ==> !crate::text::is_ws(#[trigger] t[j]),
        k == t.len() || crate::text::is_ws(t[k]),
    ensures
        first_word(t) == t.take(k),
    decreases k,
{
    if k == 0 {
        assert(t.take(0) =~= Seq::<char>::empty());
    } else {
        lemma_first_word_at(t.drop_first(), k - 1);
        assert(seq![t[0]] + t.drop_first().take(k - 1) =~= t.take(k));
    }
}

/// The memory size in MiB that `/proc/meminfo` text gives, if any.
pub fn mem_total_mb(text: &str) -> (r: Option<u64>)
    ensures
        r matches Some(mb) ==> mem_total_in(lines_from(text@)) == Some(mb as nat),
        r is None ==> mem_total_in(lines_from(text@)) is None,
{
    let v = chars_of(text);
    let n = v.len();
    let key = ['M', 'e', 'm', 'T', 'o', 't', 'a', 'l', ':'];
    assert(key@ =~= mem_total_key());
    let mut start: usize = 0;
    assert(v@.subrange(0, n as int) =~= v@);
    loop
        invariant
            start <= n == v@.len(),
            v@ == text@,
            key@ == mem_total_key(),
            mem_total_in(lines_from(text@)) == mem_total_in(lines_from(v@.subrange(start as int, n as int))),
        decreases n - start,
    {
        let e = find_char(&v, start, n, '\n');
        let ghost rest = v@.subrange(start as int, n as int);
        let ghost line = v@.subrange(start as int, e as int);
        proof {
            assert(rest.take(e - start) =~= line);
            if e < n {
                assert(rest.skip(e - start + 1) =~= v@.subrange(e + 1, n as int));
            } else {
                assert(rest =~= line);
            }
            lemma_index_of_first_nonneg(rest, '\n');
        }
        if e - start >= 9 && range_is(&v, start, start + 9, &key) {
            assert(line.take(9) =~= v@.subrange(start as int, start + 9));
            assert(line.skip(9) =~= v@.subrange(start + 9, e as int));
            let (a, b) = trim_bounds(&v, start + 9, e, false);
            let mut w = a;
            while w < b && !crate::text::is_ws_exec(v[w])
                invariant
                    a <= w <= b <= v@.len(),
                    forall|j: int| a <= j < w ==> !crate::text::is_ws(#[trigger] v@[j]),
                decreases b - w,
            {
                w += 1;
            }
            proof {
                let t = v@.subrange(a as int, b as int);
                assert forall|j: int| 0 <= j < w - a implies !crate::text::is_ws(#[trigger] t[j]) by {
                    assert(t[j] == v@[a + j]);
                }
                if w < b {
                    assert(t[w - a] == v@[w as int]);
                }
                lemma_first_word_at(t, w - a);
                assert(t.take(w - a) =~= v@.subrange(a as int, w as int));
            }
            return match parse_unsigned_range(&v, a, w, u64::MAX) {
                Some(kb) => Some(kb / 1024),
                None => None,
            };
        }
        proof {
            if e - start >= 9 {
                assert(line.take(9) =~= v@.subrange(start as int, start + 9));
            }
            assert(!(line.len() >= 9 && line.take(9) == mem_total_key()));
            if e < n {
                let next = v@.subrange(e + 1, n as int);
                assert(lines_from(rest) == seq![line] + lines_from(next));
                assert((seq![line] + lines_from(next))[0] == line);
                assert((seq![line] + lines_from(next)).drop_first() =~= lines_from(next));
                assert(mem_total_in(lines_from(rest)) == mem_total_in(lines_from(next)));
            } else {
                assert(lines_from(rest) == seq![line]);
                assert(seq![line].drop_first() =~= Seq::<Seq<char>>::empty());
                assert(seq![line][0] == line);
                assert(mem_total_in(Seq::<Seq<char>>::empty()) is None);
                assert(mem_total_in(seq![line]) == mem_total_in(seq![line].drop_first()));
                assert(mem_total_in(lines_from(rest)) is None);
            }
        }
        if e >= n {
            return None;
        }
        start = e + 1;
    }
}

} // verus!
