//! Merging the workers' measurements: totals, the status-code distribution, the phase
//! timing details, and the latency percentiles (all times in nanoseconds).
use vstd::prelude::*;
use std::collections::HashMap;
use crate::engine::{PhaseAcc, WorkerLoop, WorkerResult, lemma_shares_add_up, seq_sum, shares_sum, worker_share};

verus! {

broadcast use vstd::std_specs::hash::group_hash_axioms;

/// Sorts latencies in ascending order (`<[u64]>::sort_unstable`).
///
/// Trusted: claims of `sort_unstable` that the result is in ascending order and holds
/// the same values as before, as its documentation says.
#[verifier::external_body]
pub(crate) fn sort_latencies(v: &mut Vec<u64>)
    ensures
        final(v)@.to_multiset() == old(v)@.to_multiset(),
        forall|i: int, j: int| 0 <= i <= j < final(v)@.len() ==> final(v)@[i] <= final(v)@[j],
{
    v.sort_unstable();
}

/// The latencies of all workers, worker after worker.
pub open spec fn all_latencies(rs: Seq<WorkerResult>) -> Seq<u64>
    decreases rs.len(),
{
    if rs.len() == 0 {
        Seq::empty()
    } else {
        all_latencies(rs.drop_last()) + rs.last().latencies@
    }
}

/// The status codes of all workers, worker after worker.
pub open spec fn all_status_codes(rs: Seq<WorkerResult>) -> Seq<u16>
    decreases rs.len(),
{
    if rs.len() == 0 {
        Seq::empty()
    } else {
        all_status_codes(rs.drop_last()) + rs.last().status_codes@
    }
}

pub open spec fn total_errors(rs: Seq<WorkerResult>) -> int
    decreases rs.len(),
{
    if rs.len() == 0 { 0 } else { total_errors(rs.drop_last()) + rs.last().errors }
}

pub open spec fn total_drain_aborted(rs: Seq<WorkerResult>) -> int
    decreases rs.len(),
{
    if rs.len() == 0 { 0 } else { total_drain_aborted(rs.drop_last()) + rs.last().drain_aborted }
}

pub open spec fn total_bytes(rs: Seq<WorkerResult>) -> int
    decreases rs.len(),
{
    if rs.len() == 0 { 0 } else { total_bytes(rs.drop_last()) + rs.last().bytes_recv }
}

/// How often `k` occurs in `codes`.
pub open spec fn code_count(codes: Seq<u16>, k: u16) -> nat
    decreases codes.len(),
{
    if codes.len() == 0 {
        0
    } else {
        code_count(codes.drop_last(), k) + if codes.last() == k { 1nat } else { 0nat }
    }
}

/// Phase `which` of a worker: 0 request write, 1 response wait, 2 response read.
pub open spec fn phase_of(r: WorkerResult, which: int) -> PhaseAcc {
    if which == 0 {
        r.write
    } else if which == 1 {
        r.wait
    } else {
        r.read
    }
}

/// The workers whose phase timings are merged: those that recorded a request write.
pub open spec fn contributes(r: WorkerResult) -> bool {
    r.write.count > 0
}

/// The summed time of phase `which` over the contributing workers.
pub open spec fn phase_sum(rs: Seq<WorkerResult>, which: int) -> int
    decreases rs.len(),
{
    if rs.len() == 0 {
        0
    } else {
        phase_sum(rs.drop_last(), which) + if contributes(rs.last()) {
            phase_of(rs.last(), which).sum as int
        } else {
            0
        }
    }
}

/// The smallest minimum of phase `which` over the contributing workers (`u64::MAX` if none).
pub open spec fn phase_min(rs: Seq<WorkerResult>, which: int) -> u64
    decreases rs.len(),
{
    if rs.len() == 0 {
        u64::MAX
    } else {
        let m = phase_min(rs.drop_last(), which);
        if contributes(rs.last()) && phase_of(rs.last(), which).min < m {
            phase_of(rs.last(), which).min
        } else {
            m
        }
    }
}

/// The largest maximum of phase `which` over the contributing workers (0 if none).
pub open spec fn phase_max(rs: Seq<WorkerResult>, which: int) -> u64
    decreases rs.len(),
{
    if rs.len() == 0 {
        0
    } else {
        let m = phase_max(rs.drop_last(), which);
        if contributes(rs.last()) && phase_of(rs.last(), which).max > m {
            phase_of(rs.last(), which).max
        } else {
            m
        }
    }
}

/// The number of timed requests: the request-write counts of the contributing workers.
pub open spec fn phase_count(rs: Seq<WorkerResult>) -> int
    decreases rs.len(),
{
    if rs.len() == 0 {
        0
    } else {
        phase_count(rs.drop_last()) + if contributes(rs.last()) {
            rs.last().write.count as int
        } else {
            0
        }
    }
}

/// Average, fastest and slowest time of one phase, in nanoseconds.
#[derive(PartialEq, Eq, Structural, Clone, Copy, Debug)]
pub struct PhaseStat {
    pub avg: u64,
    pub min: u64,
    pub max: u64,
}

/// Phase timing breakdown: request write, response wait, response read.
#[derive(PartialEq, Eq, Structural, Clone, Copy, Debug)]
pub struct PhaseDetails {
    pub req_write: PhaseStat,
    pub resp_wait: PhaseStat,
    pub resp_read: PhaseStat,
}

/// The statistic of phase `which`: the summed time divided (rounding down) by the
/// number of timed requests, or 0 when there is none; the minimum, or 0 when nothing
/// contributed; the maximum.
pub open spec fn phase_stat(rs: Seq<WorkerResult>, which: int) -> PhaseStat {
    PhaseStat {
        avg: if phase_count(rs) > 0 {
            (phase_sum(rs, which) / phase_count(rs)) as u64
        } else {
            0
        },
        min: if phase_min(rs, which) == u64::MAX {
            0
        } else {
            phase_min(rs, which)
        },
        max: phase_max(rs, which),
    }
}

/// Everything of a run that is counted rather than timed, plus all latencies sorted.
pub struct MergedResults {
    /// Completed, failed and drain-aborted requests.
    pub total_requests: usize,
    pub total_errors: u64,
    pub total_drain_aborted: u64,
    pub total_bytes: u64,
    /// All latencies in ascending order.
    pub latencies: Vec<u64>,
    /// How many responses came with each status code.
    pub status_dist: HashMap<u16, usize>,
    pub details: PhaseDetails,
}

/// Where the counters of all workers fit their types.
pub open spec fn merge_fits(rs: Seq<WorkerResult>) -> bool {
    &&& total_errors(rs) <= u64::MAX
    &&& total_drain_aborted(rs) <= u64::MAX
    &&& total_bytes(rs) <= u64::MAX
    &&& all_latencies(rs).len() + total_errors(rs) + total_drain_aborted(rs) <= usize::MAX
    &&& all_status_codes(rs).len() <= usize::MAX
    &&& forall|w: int| 0 <= w < 3 ==> #[trigger] phase_sum(rs, w) <= u64::MAX
    &&& phase_count(rs) <= u64::MAX
}

proof fn lemma_prefix_step(rs: Seq<WorkerResult>, i: int)
    requires
        0 <= i < rs.len(),
    ensures
        rs.take(i + 1).drop_last() == rs.take(i),
        rs.take(i + 1).last() == rs[i],
{
    assert(rs.take(i + 1).drop_last() =~= rs.take(i));
}

proof fn lemma_totals_monotone(rs: Seq<WorkerResult>, i: int)
    requires
        0 <= i <= rs.len(),
    ensures
        0 <= total_errors(rs.take(i)) <= total_errors(rs),
        0 <= total_drain_aborted(rs.take(i)) <= total_drain_aborted(rs),
        0 <= total_bytes(rs.take(i)) <= total_bytes(rs),
        all_latencies(rs.take(i)).len() <= all_latencies(rs).len(),
        all_status_codes(rs.take(i)).len() <= all_status_codes(rs).len(),
        forall|w: int| 0 <= w < 3 ==> 0 <= #[trigger] phase_sum(rs.take(i), w) <= phase_sum(rs, w),
        0 <= phase_count(rs.take(i)) <= phase_count(rs),
    decreases rs.len() - i,
{
    if i < rs.len() {
        lemma_totals_monotone(rs.drop_last(), i);
        assert(rs.drop_last().take(i) =~= rs.take(i));
    } else {
        assert(rs.take(i) =~= rs);
        lemma_totals_nonneg(rs);
    }
}

proof fn lemma_totals_nonneg(rs: Seq<WorkerResult>)
    ensures
        total_errors(rs) >= 0,
        total_drain_aborted(rs) >= 0,
        total_bytes(rs) >= 0,
        forall|w: int| 0 <= w < 3 ==> #[trigger] phase_sum(rs, w) >= 0,
        phase_count(rs) >= 0,
    decreases rs.len(),
{
    if rs.len() > 0 {
        lemma_totals_nonneg(rs.drop_last());
        assert forall|w: int| 0 <= w < 3 implies #[trigger] phase_sum(rs, w) >= 0 by {
            assert(phase_sum(rs.drop_last(), w) >= 0);
        }
    }
}

/// Counts one more occurrence of `code`.
fn count_code(m: &mut HashMap<u16, usize>, code: u16, Ghost(codes): Ghost<Seq<u16>>)
    requires
        forall|k: u16| #[trigger] old(m)@.contains_key(k) == (code_count(codes, k) > 0),
        forall|k: u16| old(m)@.contains_key(k) ==> #[trigger] old(m)@[k] == code_count(codes, k),
        code_count(codes, code) < usize::MAX,
    ensures
        forall|k: u16| #[trigger] final(m)@.contains_key(k) == (code_count(codes.push(code), k) > 0),
        forall|k: u16| final(m)@.contains_key(k) ==> #[trigger] final(m)@[k] == code_count(codes.push(code), k),
{
    let c: usize = match m.get(&code) {
        Some(c) => *c,
        None => 0,
    };
    m.insert(code, c + 1);
    proof {
        assert(codes.push(code).drop_last() =~= codes);
    }
}

proof fn lemma_code_count_le_len(codes: Seq<u16>, k: u16)
    ensures
        code_count(codes, k) <= codes.len(),
    decreases codes.len(),
{
    if codes.len() > 0 {
        lemma_code_count_le_len(codes.drop_last(), k);
    }
}

/// Whether `merge_results` can merge `results` without a counter overflowing.
pub fn merge_fits_exec(results: &Vec<WorkerResult>) -> (r: bool)
    ensures
        r == merge_fits(results@),
{
    let ghost rs = results@;
    let mut errors: u128 = 0;
    let mut drain: u128 = 0;
    let mut bytes: u128 = 0;
    let mut lats: u128 = 0;
    let mut codes: u128 = 0;
    let mut w: u128 = 0;
    let mut t: u128 = 0;
    let mut rd: u128 = 0;
    let mut count: u128 = 0;
    let mut i: usize = 0;
    let cap: u128 = u64::MAX as u128;
    assert(rs.take(0) =~= Seq::<WorkerResult>::empty());
    while i < results.len()
        invariant
            rs == results@,
            i <= rs.len(),
            cap == u64::MAX,
            errors as int == total_errors(rs.take(i as int)) || (errors > cap && total_errors(rs) > u64::MAX),
            drain as int == total_drain_aborted(rs.take(i as int)) || (drain > cap && total_drain_aborted(rs) > u64::MAX),
            bytes as int == total_bytes(rs.take(i as int)) || (bytes > cap && total_bytes(rs) > u64::MAX),
            lats as int == all_latencies(rs.take(i as int)).len() || (lats > cap && all_latencies(rs).len() > u64::MAX),
            codes as int == all_status_codes(rs.take(i as int)).len() || (codes > cap && all_status_codes(rs).len() > u64::MAX),
            w as int == phase_sum(rs.take(i as int), 0) || (w > cap && phase_sum(rs, 0) > u64::MAX),
            t as int == phase_sum(rs.take(i as int), 1) || (t > cap && phase_sum(rs, 1) > u64::MAX),
            rd as int == phase_sum(rs.take(i as int), 2) || (rd > cap && phase_sum(rs, 2) > u64::MAX),
            count as int == phase_count(rs.take(i as int)) || (count > cap && phase_count(rs) > u64::MAX),
            errors <= cap + 1, drain <= cap + 1, bytes <= cap + 1, lats <= cap + 1, codes <= cap + 1,
            w <= cap + 1, t <= cap + 1, rd <= cap + 1, count <= cap + 1,
        decreases rs.len() - i,
    {
        let r = &results[i];
        proof {
            lemma_prefix_step(rs, i as int);
            lemma_totals_monotone(rs, i + 1);
        }
        errors = clamp_add(errors, r.errors as u128, cap);
        drain = clamp_add(drain, r.drain_aborted as u128, cap);
        bytes = clamp_add(bytes, r.bytes_recv as u128, cap);
        lats = clamp_add(lats, r.latencies.len() as u128, cap);
        codes = clamp_add(codes, r.status_codes.len() as u128, cap);
        if r.write.count > 0 {
            w = clamp_add(w, r.write.sum as u128, cap);
            t = clamp_add(t, r.wait.sum as u128, cap);
            rd = clamp_add(rd, r.read.sum as u128, cap);
            count = clamp_add(count, r.write.count as u128, cap);
        }
        i += 1;
    }
    assert(rs.take(rs.len() as int) =~= rs);
    proof {
        lemma_totals_nonneg(rs);
    }
    let umax = usize::MAX as u128;
    errors <= cap && drain <= cap && bytes <= cap && lats <= cap && codes <= umax
        && lats + errors + drain <= umax && w <= cap && t <= cap && rd <= cap && count <= cap
}

/// `a + b`, or `cap + 1` once the sum passes `cap`.
fn clamp_add(a: u128, b: u128, cap: u128) -> (r: u128)
    requires
        a <= cap + 1,
        b <= cap,
        cap == u64::MAX,
    ensures
        r == if a + b > cap { cap + 1 } else { a + b },
{
    if a + b > cap { cap + 1 } else { a + b }
}

/// Merges the workers' results: sums the counters, gathers and sorts all latencies,
/// counts the status codes, and combines the phase timings of the workers that timed
/// any request.
pub fn merge_results(results: &Vec<WorkerResult>) -> (m: MergedResults)
    requires
        merge_fits(results@),
    ensures
        m.total_errors == total_errors(results@),
        m.total_drain_aborted == total_drain_aborted(results@),
        m.total_bytes == total_bytes(results@),
        m.total_requests == all_latencies(results@).len() + total_errors(results@)
            + total_drain_aborted(results@),
        m.latencies@.to_multiset() == all_latencies(results@).to_multiset(),
        forall|i: int, j: int| 0 <= i <= j < m.latencies@.len() ==> m.latencies@[i] <= m.latencies@[j],
        forall|k: u16| #[trigger] m.status_dist@.contains_key(k) == (code_count(all_status_codes(results@), k) > 0),
        forall|k: u16| m.status_dist@.contains_key(k) ==> #[trigger] m.status_dist@[k] == code_count(
            all_status_codes(results@),
            k,
        ),
        m.details.req_write == phase_stat(results@, 0),
        m.details.resp_wait == phase_stat(results@, 1),
        m.details.resp_read == phase_stat(results@, 2),
        results@.len() == 1 && results@[0].write.count > 0 ==> {
            let r = results@[0];
            &&& m.details.req_write == PhaseStat {
                avg: r.write.sum / r.write.count,
                min: if r.write.min == u64::MAX { 0 } else { r.write.min },
                max: r.write.max,
            }
            &&& m.details.resp_wait == PhaseStat {
                avg: r.wait.sum / r.write.count,
                min: if r.wait.min == u64::MAX { 0 } else { r.wait.min },
                max: r.wait.max,
            }
            &&& m.details.resp_read == PhaseStat {
                avg: r.read.sum / r.write.count,
                min: if r.read.min == u64::MAX { 0 } else { r.read.min },
                max: r.read.max,
            }
        },
{
    proof {
        if results@.len() == 1 && results@[0].write.count > 0 {
            lemma_phase_stat_one_worker(results@[0]);
            assert(results@ =~= seq![results@[0]]);
        }
    }
    let ghost rs = results@;
    let mut errors: u64 = 0;
    let mut drain: u64 = 0;
    let mut bytes: u64 = 0;
    let mut lats: Vec<u64> = Vec::new();
    let mut dist: HashMap<u16, usize> = HashMap::new();
    let mut w_sum: u64 = 0;
    let mut w_min: u64 = u64::MAX;
    let mut w_max: u64 = 0;
    let mut t_sum: u64 = 0;
    let mut t_min: u64 = u64::MAX;
    let mut t_max: u64 = 0;
    let mut r_sum: u64 = 0;
    let mut r_min: u64 = u64::MAX;
    let mut r_max: u64 = 0;
    let mut count: u64 = 0;
    let mut i: usize = 0;
    assert(rs.take(0) =~= Seq::<WorkerResult>::empty());
    while i < results.len()
        invariant
            rs == results@,
            merge_fits(rs),
            i <= rs.len(),
            errors == total_errors(rs.take(i as int)),
            drain == total_drain_aborted(rs.take(i as int)),
            bytes == total_bytes(rs.take(i as int)),
            lats@ == all_latencies(rs.take(i as int)),
            forall|k: u16| #[trigger] dist@.contains_key(k) == (code_count(all_status_codes(rs.take(i as int)), k) > 0),
            forall|k: u16| dist@.contains_key(k) ==> #[trigger] dist@[k] == code_count(
                all_status_codes(rs.take(i as int)),
                k,
            ),
            w_sum == phase_sum(rs.take(i as int), 0),
            t_sum == phase_sum(rs.take(i as int), 1),
            r_sum == phase_sum(rs.take(i as int), 2),
            w_min == phase_min(rs.take(i as int), 0),
            t_min == phase_min(rs.take(i as int), 1),
            r_min == phase_min(rs.take(i as int), 2),
            w_max == phase_max(rs.take(i as int), 0),
            t_max == phase_max(rs.take(i as int), 1),
            r_max == phase_max(rs.take(i as int), 2),
            count == phase_count(rs.take(i as int)),
        decreases rs.len() - i,
    {
        let r = &results[i];
        proof {
            lemma_prefix_step(rs, i as int);
            lemma_totals_monotone(rs, i + 1);
        }
        errors = errors + r.errors;
        drain = drain + r.drain_aborted;
        bytes = bytes + r.bytes_recv;
        let mut j: usize = 0;
        let ghost lats0 = lats@;
        while j < r.latencies.len()
            invariant
                j <= r.latencies@.len(),
                lats@ == lats0 + r.latencies@.take(j as int),
            decreases r.latencies@.len() - j,
        {
            lats.push(r.latencies[j]);
            j += 1;
            assert(lats@ =~= lats0 + r.latencies@.take(j as int));
        }
        assert(r.latencies@.take(r.latencies@.len() as int) =~= r.latencies@);
        let mut j: usize = 0;
        let ghost codes0 = all_status_codes(rs.take(i as int));
        while j < r.status_codes.len()
            invariant
                j <= r.status_codes@.len(),
                (codes0 + r.status_codes@).len() <= usize::MAX,
                forall|k: u16| #[trigger] dist@.contains_key(k) == (code_count(codes0 + r.status_codes@.take(j as int), k) > 0),
                forall|k: u16| dist@.contains_key(k) ==> #[trigger] dist@[k] == code_count(
                    codes0 + r.status_codes@.take(j as int),
                    k,
                ),
            decreases r.status_codes@.len() - j,
        {
            let code = r.status_codes[j];
            proof {
                let pre = codes0 + r.status_codes@.take(j as int);
                lemma_code_count_le_len(pre, code);
                assert(pre.push(code) =~= codes0 + r.status_codes@.take(j + 1));
            }
            count_code(&mut dist, code, Ghost(codes0 + r.status_codes@.take(j as int)));
            j += 1;
        }
        assert(r.status_codes@.take(r.status_codes@.len() as int) =~= r.status_codes@);
        proof {
            assert(phase_sum(rs, 0) <= u64::MAX);
            assert(phase_sum(rs, 1) <= u64::MAX);
            assert(phase_sum(rs, 2) <= u64::MAX);
            assert(phase_sum(rs.take(i + 1), 0) <= phase_sum(rs, 0));
            assert(phase_sum(rs.take(i + 1), 1) <= phase_sum(rs, 1));
            assert(phase_sum(rs.take(i + 1), 2) <= phase_sum(rs, 2));
        }
        if r.write.count > 0 {
            w_sum = w_sum + r.write.sum;
            if r.write.min < w_min { w_min = r.write.min; }
            if r.write.max > w_max { w_max = r.write.max; }
            t_sum = t_sum + r.wait.sum;
            if r.wait.min < t_min { t_min = r.wait.min; }
            if r.wait.max > t_max { t_max = r.wait.max; }
            r_sum = r_sum + r.read.sum;
            if r.read.min < r_min { r_min = r.read.min; }
            if r.read.max > r_max { r_max = r.read.max; }
            count = count + r.write.count;
        }
        i += 1;
    }
    assert(rs.take(rs.len() as int) =~= rs);
    let total_requests = lats.len() + errors as usize + drain as usize;
    sort_latencies(&mut lats);
    let details = PhaseDetails {
        req_write: phase_stat_exec(w_sum, w_min, w_max, count),
        resp_wait: phase_stat_exec(t_sum, t_min, t_max, count),
        resp_read: phase_stat_exec(r_sum, r_min, r_max, count),
    };
    MergedResults {
        total_requests,
        total_errors: errors,
        total_drain_aborted: drain,
        total_bytes: bytes,
        latencies: lats,
        status_dist: dist,
        details,
    }
}

fn phase_stat_exec(sum: u64, min: u64, max: u64, count: u64) -> (s: PhaseStat)
    ensures
        s.avg == if count > 0 { sum / count } else { 0 },
        s.min == if min == u64::MAX { 0 } else { min },
        s.max == max,
{
    PhaseStat {
        avg: if count > 0 { sum / count } else { 0 },
        min: if min == u64::MAX { 0 } else { min },
        max,
    }
}

/// Latency percentiles in nanoseconds.
#[derive(PartialEq, Eq, Structural, Clone, Copy, Debug)]
pub struct Percentiles {
    pub p10: u64,
    pub p25: u64,
    pub p50: u64,
    pub p75: u64,
    pub p90: u64,
    pub p95: u64,
    pub p99: u64,
    pub p999: u64,
    pub p9999: u64,
}

/// Fastest, slowest and average latency and the percentiles, in nanoseconds.
#[derive(PartialEq, Eq, Structural, Clone, Copy, Debug)]
pub struct LatencyStats {
    pub min: u64,
    pub max: u64,
    pub avg: u64,
    pub percentiles: Percentiles,
}

/// The index that percentile `p / scale` picks among `n` sorted samples:
/// `p * n / scale`, but at most the last index.
pub open spec fn pct_index(p: int, scale: int, n: int) -> int {
    let i = p * n / scale;
    if i < n - 1 { i } else { n - 1 }
}

/// The statistics of `s`, read as sorted: first and last sample, the sum divided by
/// the count (rounding down), and the samples at the percentile indices.
pub open spec fn latency_stats_spec(s: Seq<u64>) -> LatencyStats {
    let n = s.len() as int;
    LatencyStats {
        min: s[0],
        max: s[n - 1],
        avg: (seq_sum(s) / n) as u64,
        percentiles: Percentiles {
            p10: s[pct_index(10, 100, n)],
            p25: s[pct_index(25, 100, n)],
            p50: s[pct_index(50, 100, n)],
            p75: s[pct_index(75, 100, n)],
            p90: s[pct_index(90, 100, n)],
            p95: s[pct_index(95, 100, n)],
            p99: s[pct_index(99, 100, n)],
            p999: s[pct_index(9990, 10000, n)],
            p9999: s[pct_index(9999, 10000, n)],
        },
    }
}

fn pct_at(sorted: &Vec<u64>, p: usize, scale: usize) -> (v: u64)
    requires
        sorted@.len() > 0,
        p * sorted@.len() <= usize::MAX,
        scale > 0,
    ensures
        v == sorted@[pct_index(p as int, scale as int, sorted@.len() as int)],
{
    let n = sorted.len();
    let i = p * n / scale;
    let idx = if i < n - 1 { i } else { n - 1 };
    sorted[idx]
}

/// Whether `latency_stats` can take `sorted`: the sum fits a `u64` and the percentile
/// index arithmetic fits a `usize`.
pub fn latency_stats_fits(sorted: &Vec<u64>) -> (r: bool)
    ensures
        r == (seq_sum(sorted@) <= u64::MAX && sorted@.len() * 9999 <= usize::MAX),
{
    if sorted.len() > usize::MAX / 9999 {
        return false;
    }
    let mut sum: u64 = 0;
    let mut i: usize = 0;
    while i < sorted.len()
        invariant
            i <= sorted@.len(),
            sum == seq_sum(sorted@.take(i as int)),
        decreases sorted@.len() - i,
    {
        proof {
            assert(sorted@.take(i + 1).drop_last() =~= sorted@.take(i as int));
        }
        match sum.checked_add(sorted[i]) {
            Some(x) => sum = x,
            None => {
                proof {
                    lemma_seq_sum_prefix_le(sorted@, i + 1);
                }
                return false;
            },
        }
        i += 1;
    }
    assert(sorted@.take(sorted@.len() as int) =~= sorted@);
    true
}

/// The latency statistics of the sorted latencies; `None` when there are none.
pub fn latency_stats(sorted: &Vec<u64>) -> (r: Option<LatencyStats>)
    requires
        seq_sum(sorted@) <= u64::MAX,
        sorted@.len() * 9999 <= usize::MAX,
    ensures
        r is None == (sorted@.len() == 0),
        r matches Some(st) ==> st == latency_stats_spec(sorted@),
{
    let n = sorted.len();
    if n == 0 {
        return None;
    }
    let mut sum: u64 = 0;
    let mut i: usize = 0;
    while i < n
        invariant
            n == sorted@.len(),
            i <= n,
            seq_sum(sorted@) <= u64::MAX,
            sum == seq_sum(sorted@.take(i as int)),
        decreases n - i,
    {
        proof {
            assert(sorted@.take(i + 1).drop_last() =~= sorted@.take(i as int));
            lemma_seq_sum_prefix_le(sorted@, i + 1);
        }
        sum = sum + sorted[i];
        i += 1;
    }
    assert(sorted@.take(n as int) =~= sorted@);
    let percentiles = Percentiles {
        p10: pct_at(sorted, 10, 100),
        p25: pct_at(sorted, 25, 100),
        p50: pct_at(sorted, 50, 100),
        p75: pct_at(sorted, 75, 100),
        p90: pct_at(sorted, 90, 100),
        p95: pct_at(sorted, 95, 100),
        p99: pct_at(sorted, 99, 100),
        p999: pct_at(sorted, 9990, 10000),
        p9999: pct_at(sorted, 9999, 10000),
    };
    Some(LatencyStats { min: sorted[0], max: sorted[n - 1], avg: sum / (n as u64), percentiles })
}

proof fn lemma_seq_sum_prefix_le(s: Seq<u64>, k: int)
    requires
        0 <= k <= s.len(),
    ensures
        0 <= seq_sum(s.take(k)) <= seq_sum(s),
    decreases s.len() - k,
{
    if k < s.len() {
        assert(s.drop_last().take(k) =~= s.take(k));
        lemma_seq_sum_prefix_le(s.drop_last(), k);
    } else {
        assert(s.take(k) =~= s);
        lemma_seq_sum_bounds(s, 0, 0);
    }
}

/// Every sample within `[lo, hi]` puts the sum within `[len * lo, len * hi]`.
proof fn lemma_seq_sum_bounds(s: Seq<u64>, lo: int, hi: int)
    ensures
        (forall|i: int| 0 <= i < s.len() ==> lo <= #[trigger] s[i]) ==> s.len() * lo <= seq_sum(s),
        (forall|i: int| 0 <= i < s.len() ==> #[trigger] s[i] <= hi) ==> seq_sum(s) <= s.len() * hi,
        seq_sum(s) >= 0,
    decreases s.len(),
{
    if s.len() > 0 {
        let p = s.drop_last();
        lemma_seq_sum_bounds(p, lo, hi);
        if forall|i: int| 0 <= i < s.len() ==> lo <= #[trigger] s[i] {
            assert forall|i: int| 0 <= i < p.len() implies lo <= #[trigger] p[i] by {
                assert(p[i] == s[i]);
            }
            assert(s.last() == s[s.len() - 1]);
            assert(s.len() * lo == p.len() * lo + lo) by (nonlinear_arith)
                requires s.len() == p.len() + 1;
        }
        if forall|i: int| 0 <= i < s.len() ==> #[trigger] s[i] <= hi {
            assert forall|i: int| 0 <= i < p.len() implies #[trigger] p[i] <= hi by {
                assert(p[i] == s[i]);
            }
            assert(s.last() == s[s.len() - 1]);
            assert(s.len() * hi == p.len() * hi + hi) by (nonlinear_arith)
                requires s.len() == p.len() + 1;
        }
    }
}

proof fn lemma_pct_index_le(p: int, sp: int, q: int, sq: int, n: int)
    requires
        n >= 1,
        sp > 0,
        sq > 0,
        p >= 0,
        q >= 0,
        p * sq <= q * sp,
    ensures
        0 <= pct_index(p, sp, n) <= pct_index(q, sq, n) <= n - 1,
{
    let a = p * n / sp;
    let b = q * n / sq;
    vstd::arithmetic::div_mod::lemma_fundamental_div_mod(p * n, sp);
    vstd::arithmetic::div_mod::lemma_fundamental_div_mod(q * n, sq);
    assert(p * n >= 0) by (nonlinear_arith) requires p >= 0, n >= 1;
    assert(a >= 0) by {
        vstd::arithmetic::div_mod::lemma_div_pos_is_pos(p * n, sp);
    }
    // sp * a <= p * n, so sq * sp * a <= sq * p * n <= sp * q * n, so sq * a <= q * n, so a <= b
    assert(sp * a <= p * n) by {
        vstd::arithmetic::div_mod::lemma_mod_bound(p * n, sp);
    }
    assert(sq * a <= q * n) by (nonlinear_arith)
        requires sp * a <= p * n, p * sq <= q * sp, sp > 0, sq > 0, n >= 1, a >= 0;
    assert(a <= b) by (nonlinear_arith)
        requires sq * a <= q * n, q * n == sq * b + (q * n) % sq, 0 <= (q * n) % sq < sq, sq > 0;
}

/// On sorted latencies the statistics are ordered: the fastest is at most every
/// percentile, the percentiles rise from p10 to p99.99, the slowest is at least every
/// percentile, and the average lies between the fastest and the slowest.
pub proof fn lemma_latency_stats_ordered(s: Seq<u64>)
    requires
        s.len() > 0,
        forall|i: int, j: int| 0 <= i <= j < s.len() ==> s[i] <= s[j],
    ensures
        ({
            let st = latency_stats_spec(s);
            let p = st.percentiles;
            &&& st.min <= p.p10
            &&& p.p10 <= p.p25 && p.p25 <= p.p50 && p.p50 <= p.p75 && p.p75 <= p.p90
            &&& p.p90 <= p.p95 && p.p95 <= p.p99 && p.p99 <= p.p999 && p.p999 <= p.p9999
            &&& p.p9999 <= st.max
            &&& st.min <= st.avg <= st.max
        }),
{
    let n = s.len() as int;
    lemma_pct_index_le(10, 100, 25, 100, n);
    lemma_pct_index_le(25, 100, 50, 100, n);
    lemma_pct_index_le(50, 100, 75, 100, n);
    lemma_pct_index_le(75, 100, 90, 100, n);
    lemma_pct_index_le(90, 100, 95, 100, n);
    lemma_pct_index_le(95, 100, 99, 100, n);
    lemma_pct_index_le(99, 100, 9990, 10000, n);
    lemma_pct_index_le(9990, 10000, 9999, 10000, n);
    lemma_seq_sum_bounds(s, s[0] as int, s[n - 1] as int);
    let sum = seq_sum(s);
    assert(n * s[0] <= sum);
    assert(sum <= n * s[n - 1]);
    assert(s[0] <= sum / n) by {
        vstd::arithmetic::div_mod::lemma_div_is_ordered(n * s[0], sum, n);
        vstd::arithmetic::div_mod::lemma_div_multiples_vanish(s[0] as int, n);
    }
    assert(sum / n <= s[n - 1]) by {
        vstd::arithmetic::div_mod::lemma_div_is_ordered(sum, n * s[n - 1], n);
        vstd::arithmetic::div_mod::lemma_div_multiples_vanish(s[n - 1] as int, n);
    }
}

/// The results of the workers' loops, in order.
pub open spec fn loop_results(ws: Seq<WorkerLoop>) -> Seq<WorkerResult> {
    ws.map_values(|w: WorkerLoop| w.result)
}

/// Worker `i` of `ws` has finished its whole share of `total` requests: it started all
/// of them, has none in flight, and aborted none.
pub open spec fn finished_share(ws: Seq<WorkerLoop>, total: nat, i: int) -> bool {
    &&& ws[i].wf()
    &&& ws[i].in_flight == 0
    &&& ws[i].budget.sent == ws[i].budget.limit
    &&& ws[i].budget.limit == worker_share(total, ws.len(), i as nat, false)
    &&& ws[i].result.drain_aborted == 0
}

proof fn lemma_counted_prefix(ws: Seq<WorkerLoop>, total: nat, k: int)
    requires
        ws.len() >= 1,
        0 <= k <= ws.len(),
        forall|i: int| 0 <= i < ws.len() ==> #[trigger] finished_share(ws, total, i),
    ensures
        all_latencies(loop_results(ws).take(k)).len() + total_errors(loop_results(ws).take(k))
            == shares_sum(total, ws.len(), k as nat),
        total_drain_aborted(loop_results(ws).take(k)) == 0,
    decreases k,
{
    if k > 0 {
        lemma_counted_prefix(ws, total, k - 1);
        let rs = loop_results(ws);
        assert(rs.take(k).drop_last() =~= rs.take(k - 1));
        assert(rs.take(k).last() == ws[k - 1].result);
        assert(finished_share(ws, total, k - 1));
    } else {
        assert(loop_results(ws).take(0) =~= Seq::<WorkerResult>::empty());
    }
}

/// In request-count mode no request is lost or invented: once every worker has started
/// its whole share of `total` requests and has none in flight, the merged results count
/// exactly `total` requests (`merge_results`' total), each as a latency or an error.
pub proof fn lemma_run_counts_every_request(ws: Seq<WorkerLoop>, total: nat)
    requires
        ws.len() >= 1,
        forall|i: int| 0 <= i < ws.len() ==> #[trigger] finished_share(ws, total, i),
    ensures
        all_latencies(loop_results(ws)).len() + total_errors(loop_results(ws)) + total_drain_aborted(
            loop_results(ws),
        ) == total,
{
    lemma_counted_prefix(ws, total, ws.len() as int);
    assert(loop_results(ws).take(ws.len() as int) =~= loop_results(ws));
    lemma_shares_add_up(total, ws.len());
}

/// How a worker's timings enter the merged phase details: a worker that timed requests
/// adds its request-write, response-wait and response-read sums to the matching phase,
/// its write count to the number of timed requests, and its minimum and maximum of each
/// phase to that phase's extremes; a worker that timed nothing changes nothing.
pub proof fn lemma_phase_merge_step(rs: Seq<WorkerResult>, r: WorkerResult)
    ensures
        r.write.count > 0 ==> {
            &&& phase_count(rs.push(r)) == phase_count(rs) + r.write.count
            &&& phase_sum(rs.push(r), 0) == phase_sum(rs, 0) + r.write.sum
            &&& phase_sum(rs.push(r), 1) == phase_sum(rs, 1) + r.wait.sum
            &&& phase_sum(rs.push(r), 2) == phase_sum(rs, 2) + r.read.sum
            &&& phase_min(rs.push(r), 0) == if r.write.min < phase_min(rs, 0) { r.write.min } else { phase_min(rs, 0) }
            &&& phase_min(rs.push(r), 1) == if r.wait.min < phase_min(rs, 1) { r.wait.min } else { phase_min(rs, 1) }
            &&& phase_min(rs.push(r), 2) == if r.read.min < phase_min(rs, 2) { r.read.min } else { phase_min(rs, 2) }
            &&& phase_max(rs.push(r), 0) == if r.write.max > phase_max(rs, 0) { r.write.max } else { phase_max(rs, 0) }
            &&& phase_max(rs.push(r), 1) == if r.wait.max > phase_max(rs, 1) { r.wait.max } else { phase_max(rs, 1) }
            &&& phase_max(rs.push(r), 2) == if r.read.max > phase_max(rs, 2) { r.read.max } else { phase_max(rs, 2) }
        },
        r.write.count == 0 ==> {
            &&& phase_count(rs.push(r)) == phase_count(rs)
            &&& forall|w: int| #[trigger] phase_sum(rs.push(r), w) == phase_sum(rs, w)
            &&& forall|w: int| #[trigger] phase_min(rs.push(r), w) == phase_min(rs, w)
            &&& forall|w: int| #[trigger] phase_max(rs.push(r), w) == phase_max(rs, w)
        },
{
    assert(rs.push(r).drop_last() =~= rs);
    assert(rs.push(r).last() == r);
}

/// The phase details of a single worker that timed requests: each phase's average is its
/// summed time over the worker's timed requests, its minimum and maximum the worker's own
/// (a minimum never set reads as 0). Request write comes from the worker's write
/// accumulator, response wait from its wait accumulator, response read from its read
/// accumulator.
pub proof fn lemma_phase_stat_one_worker(r: WorkerResult)
    requires
        r.write.count > 0,
    ensures
        phase_stat(seq![r], 0) == (PhaseStat {
            avg: r.write.sum / r.write.count,
            min: if r.write.min == u64::MAX { 0 } else { r.write.min },
            max: r.write.max,
        }),
        phase_stat(seq![r], 1) == (PhaseStat {
            avg: r.wait.sum / r.write.count,
            min: if r.wait.min == u64::MAX { 0 } else { r.wait.min },
            max: r.wait.max,
        }),
        phase_stat(seq![r], 2) == (PhaseStat {
            avg: r.read.sum / r.write.count,
            min: if r.read.min == u64::MAX { 0 } else { r.read.min },
            max: r.read.max,
        }),
{
    let e = Seq::<WorkerResult>::empty();
    assert(e.push(r) =~= seq![r]);
    lemma_phase_merge_step(e, r);
}

} // verus!
