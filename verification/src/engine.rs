use vstd::prelude::*;
use std::sync::atomic::AtomicU64;

verus! {

/// Accumulates min/max/sum for a timing phase without storing per-request data.
pub struct PhaseAcc {
    pub sum: u64,
    pub min: u64,
    pub max: u64,
    pub count: u64,
}

impl PhaseAcc {
    /// The accumulator that records nothing yet.
    pub open spec fn empty() -> PhaseAcc {
        PhaseAcc { sum: 0, min: u64::MAX, max: 0, count: 0 }
    }

    /// The accumulator after one more sample `ns`.
    pub open spec fn recorded(self, ns: u64) -> PhaseAcc {
        PhaseAcc {
            sum: (self.sum + ns) as u64,
            min: if ns < self.min { ns } else { self.min },
            max: if ns > self.max { ns } else { self.max },
            count: (self.count + 1) as u64,
        }
    }

    pub fn new() -> (acc: Self)
        ensures
            acc == PhaseAcc::empty(),
    {
        PhaseAcc { sum: 0, min: u64::MAX, max: 0, count: 0 }
    }

    pub fn record(&mut self, ns: u64)
        requires
            old(self).sum + ns <= u64::MAX,
            old(self).count < u64::MAX,
        ensures
            *final(self) == old(self).recorded(ns),
    {
        self.sum += ns;
        if ns < self.min {
            self.min = ns;
        }
        if ns > self.max {
            self.max = ns;
        }
        self.count += 1;
    }
}

/// The accumulator after recording the samples of `s` in order, starting from `new()`.
pub open spec fn acc_of(s: Seq<u64>) -> PhaseAcc
    decreases s.len(),
{
    if s.len() == 0 {
        PhaseAcc::empty()
    } else {
        acc_of(s.drop_last()).recorded(s.last())
    }
}

/// The sum of the samples.
pub open spec fn seq_sum(s: Seq<u64>) -> int
    decreases s.len(),
{
    if s.len() == 0 {
        0
    } else {
        seq_sum(s.drop_last()) + s.last()
    }
}

/// A phase accumulator summarises what it recorded: after recording the samples `s`
/// (whose sum fits a `u64`) it holds their count and sum, a minimum that is one of
/// them and no larger than any, and a maximum that is one of them and no smaller
/// than any, so that count × min ≤ sum ≤ count × max; with no sample it is the empty
/// accumulator.
pub proof fn lemma_phase_acc_summarises(s: Seq<u64>)
    requires
        seq_sum(s) <= u64::MAX,
        s.len() <= u64::MAX,
    ensures
        acc_of(s).count == s.len(),
        acc_of(s).sum == seq_sum(s),
        forall|i: int| 0 <= i < s.len() ==> acc_of(s).min <= #[trigger] s[i] && s[i] <= acc_of(s).max,
        s.len() > 0 ==> exists|i: int| 0 <= i < s.len() && acc_of(s).min == s[i],
        s.len() > 0 ==> exists|i: int| 0 <= i < s.len() && acc_of(s).max == s[i],
        s.len() == 0 ==> acc_of(s) == PhaseAcc::empty(),
        s.len() > 0 ==> acc_of(s).min <= acc_of(s).max,
        s.len() > 0 ==> s.len() * acc_of(s).min <= seq_sum(s) <= s.len() * acc_of(s).max,
    decreases s.len(),
{
    lemma_phase_acc_core(s);
    if s.len() > 0 {
        assert(acc_of(s).min <= s[0] <= acc_of(s).max);
        lemma_seq_sum_bounds(s, acc_of(s).min as int, acc_of(s).max as int);
    }
}

proof fn lemma_seq_sum_bounds(s: Seq<u64>, lo: int, hi: int)
    requires
        forall|i: int| 0 <= i < s.len() ==> lo <= #[trigger] s[i] <= hi,
    ensures
        s.len() * lo <= seq_sum(s) <= s.len() * hi,
    decreases s.len(),
{
    if s.len() > 0 {
        let p = s.drop_last();
        assert forall|i: int| 0 <= i < p.len() implies lo <= #[trigger] p[i] <= hi by {
            assert(p[i] == s[i]);
        }
        lemma_seq_sum_bounds(p, lo, hi);
        assert(lo <= s[s.len() - 1] <= hi);
        assert(s.len() * lo == p.len() * lo + lo) by (nonlinear_arith)
            requires s.len() == p.len() + 1;
        assert(s.len() * hi == p.len() * hi + hi) by (nonlinear_arith)
            requires s.len() == p.len() + 1;
    }
}

proof fn lemma_phase_acc_core(s: Seq<u64>)
    requires
        seq_sum(s) <= u64::MAX,
        s.len() <= u64::MAX,
    ensures
        acc_of(s).count == s.len(),
        acc_of(s).sum == seq_sum(s),
        forall|i: int| 0 <= i < s.len() ==> acc_of(s).min <= #[trigger] s[i] && s[i] <= acc_of(s).max,
        s.len() > 0 ==> exists|i: int| 0 <= i < s.len() && acc_of(s).min == s[i],
        s.len() > 0 ==> exists|i: int| 0 <= i < s.len() && acc_of(s).max == s[i],
        s.len() == 0 ==> acc_of(s) == PhaseAcc::empty(),
    decreases s.len(),
{
    if s.len() > 0 {
        let p = s.drop_last();
        assert(seq_sum(p) <= seq_sum(s)) by {
            lemma_seq_sum_nonneg(p);
        }
        lemma_seq_sum_nonneg(p);
        lemma_phase_acc_core(p);
        let a = acc_of(p);
        assert forall|i: int| 0 <= i < s.len() implies acc_of(s).min <= #[trigger] s[i] && s[i]
            <= acc_of(s).max by {
            if i < p.len() {
                assert(s[i] == p[i]);
            }
        }
        if p.len() > 0 {
            let im = choose|i: int| 0 <= i < p.len() && a.min == p[i];
            let ix = choose|i: int| 0 <= i < p.len() && a.max == p[i];
            assert(s[im] == p[im]);
            assert(s[ix] == p[ix]);
            if s.last() < a.min {
                assert(acc_of(s).min == s[s.len() - 1]);
            } else {
                assert(acc_of(s).min == s[im]);
            }
            if s.last() > a.max {
                assert(acc_of(s).max == s[s.len() - 1]);
            } else {
                assert(acc_of(s).max == s[ix]);
            }
        } else {
            assert(acc_of(s).min == s[0]);
            assert(acc_of(s).max == s[0]);
        }
    }
}

proof fn lemma_seq_sum_nonneg(s: Seq<u64>)
    ensures
        seq_sum(s) >= 0,
    decreases s.len(),
{
    if s.len() > 0 {
        lemma_seq_sum_nonneg(s.drop_last());
    }
}

/// Live counters that the workers update and the progress display reads.
pub struct Progress {
    pub completed: AtomicU64,
    pub errors: AtomicU64,
    pub total_ns: AtomicU64,
}

impl Progress {
    /// Three counters that start at zero.
    pub fn new() -> Self {
        Progress { completed: AtomicU64::new(0), errors: AtomicU64::new(0), total_ns: AtomicU64::new(0) }
    }
}

/// Timing breakdown from a single request.
pub struct RequestTimings {
    pub write_ns: u64,
    pub wait_ns: u64,
    pub read_ns: u64,
}

/// What one worker measured.
pub struct WorkerResult {
    pub latencies: Vec<u64>,
    pub status_codes: Vec<u16>,
    pub errors: u64,
    /// Requests still in flight when the drain deadline passed.
    pub drain_aborted: u64,
    pub bytes_recv: u64,
    pub write: PhaseAcc,
    pub wait: PhaseAcc,
    pub read: PhaseAcc,
}

impl WorkerResult {
    /// A worker that has measured nothing yet.
    pub fn new() -> (w: Self)
        ensures
            w.latencies@ == Seq::<u64>::empty(),
            w.status_codes@ == Seq::<u16>::empty(),
            w.errors == 0,
            w.drain_aborted == 0,
            w.bytes_recv == 0,
            w.write == PhaseAcc::empty(),
            w.wait == PhaseAcc::empty(),
            w.read == PhaseAcc::empty(),
    {
        WorkerResult {
            latencies: Vec::new(),
            status_codes: Vec::new(),
            errors: 0,
            drain_aborted: 0,
            bytes_recv: 0,
            write: PhaseAcc::new(),
            wait: PhaseAcc::new(),
            read: PhaseAcc::new(),
        }
    }

    /// The result reported when no connection could be opened: every attempt is an error.
    pub fn from_connect_failures(failures: u64) -> (w: Self)
        ensures
            w.latencies@ == Seq::<u64>::empty(),
            w.status_codes@ == Seq::<u16>::empty(),
            w.errors == failures,
            w.drain_aborted == 0,
            w.bytes_recv == 0,
            w.write == PhaseAcc::empty(),
            w.wait == PhaseAcc::empty(),
            w.read == PhaseAcc::empty(),
    {
        let mut w = WorkerResult::new();
        w.errors = failures;
        w
    }

    /// Whether a completed request can be recorded without a counter overflowing.
    pub open spec fn can_record(self, size: u64, t: RequestTimings) -> bool {
        &&& self.bytes_recv + size <= u64::MAX
        &&& self.write.sum + t.write_ns <= u64::MAX
        &&& self.wait.sum + t.wait_ns <= u64::MAX
        &&& self.read.sum + t.read_ns <= u64::MAX
        &&& self.write.count < u64::MAX
        &&& self.wait.count < u64::MAX
        &&& self.read.count < u64::MAX
    }

    /// Whether `record_success` can take a request of `size` bytes with timings `t`.
    pub fn can_record_exec(&self, size: u64, t: &RequestTimings) -> (r: bool)
        ensures
            r == self.can_record(size, *t),
    {
        self.bytes_recv.checked_add(size).is_some() && self.write.sum.checked_add(t.write_ns).is_some()
            && self.wait.sum.checked_add(t.wait_ns).is_some() && self.read.sum.checked_add(
            t.read_ns,
        ).is_some() && self.write.count < u64::MAX && self.wait.count < u64::MAX && self.read.count
            < u64::MAX
    }

    /// Records a completed request: its latency, status and size, and its phase timings.
    pub fn record_success(&mut self, status: u16, size: u64, latency_ns: u64, t: RequestTimings)
        requires
            old(self).can_record(size, t),
        ensures
            final(self).latencies@ == old(self).latencies@.push(latency_ns),
            final(self).status_codes@ == old(self).status_codes@.push(status),
            final(self).bytes_recv == old(self).bytes_recv + size,
            final(self).write == old(self).write.recorded(t.write_ns),
            final(self).wait == old(self).wait.recorded(t.wait_ns),
            final(self).read == old(self).read.recorded(t.read_ns),
            final(self).errors == old(self).errors,
            final(self).drain_aborted == old(self).drain_aborted,
    {
        self.latencies.push(latency_ns);
        self.status_codes.push(status);
        self.bytes_recv = self.bytes_recv + size;
        self.write.record(t.write_ns);
        self.wait.record(t.wait_ns);
        self.read.record(t.read_ns);
    }

    /// Records a failed request.
    pub fn record_error(&mut self)
        requires
            old(self).errors < u64::MAX,
        ensures
            final(self).errors == old(self).errors + 1,
            final(self).latencies@ == old(self).latencies@,
            final(self).status_codes@ == old(self).status_codes@,
            final(self).bytes_recv == old(self).bytes_recv,
            final(self).write == old(self).write,
            final(self).wait == old(self).wait,
            final(self).read == old(self).read,
            final(self).drain_aborted == old(self).drain_aborted,
    {
        self.errors = self.errors + 1;
    }
}

/// How many requests a worker may still start.
pub struct RequestBudget {
    pub sent: usize,
    pub limit: usize,
}

impl RequestBudget {
    pub fn new(limit: usize) -> (b: Self)
        ensures
            b.sent == 0,
            b.limit == limit,
    {
        RequestBudget { sent: 0, limit }
    }

    /// Takes one request from the budget, if any is left.
    pub fn try_take(&mut self) -> (taken: bool)
        ensures
            taken == (old(self).sent < old(self).limit),
            final(self).limit == old(self).limit,
            final(self).sent == if taken { old(self).sent + 1 } else { old(self).sent as int },
    {
        if self.sent < self.limit {
            self.sent = self.sent + 1;
            true
        } else {
            false
        }
    }
}

/// What a worker does after one of its requests completed.
#[derive(PartialEq, Eq, Structural, Clone, Copy, Debug)]
pub enum WorkerStep {
    /// Send the next request on the connection that came free.
    SendNext,
    /// Send nothing more; wait for the requests still in flight.
    Wait,
    /// Stop now.
    Stop,
}

/// One worker's event loop: what it measured, its share of requests and how many of
/// its requests are in flight.
pub struct WorkerLoop {
    pub result: WorkerResult,
    pub budget: RequestBudget,
    pub in_flight: usize,
}

impl WorkerLoop {
    /// Every request the worker started has completed and been recorded once (as a
    /// latency or as an error), or is in flight; and it started no more than its share.
    pub open spec fn wf(self) -> bool {
        &&& self.budget.sent <= self.budget.limit
        &&& self.budget.sent == self.result.latencies@.len() + self.result.errors + self.in_flight
    }

    /// A worker with a share of `share` requests that has started none.
    pub fn new(share: usize) -> (w: Self)
        ensures
            w.wf(),
            w.budget.limit == share,
            w.budget.sent == 0,
            w.in_flight == 0,
            w.result.latencies@ == Seq::<u64>::empty(),
            w.result.status_codes@ == Seq::<u16>::empty(),
            w.result.errors == 0,
            w.result.drain_aborted == 0,
            w.result.bytes_recv == 0,
            w.result.write == PhaseAcc::empty(),
            w.result.wait == PhaseAcc::empty(),
            w.result.read == PhaseAcc::empty(),
    {
        WorkerLoop { result: WorkerResult::new(), budget: RequestBudget::new(share), in_flight: 0 }
    }

    /// Whether to start a request on the next pre-opened connection: not once the run
    /// is stopped, nor beyond the share.
    pub fn seed(&mut self, stopped: bool) -> (launch: bool)
        requires
            old(self).wf(),
        ensures
            final(self).wf(),
            launch == (!stopped && old(self).budget.sent < old(self).budget.limit),
            final(self).in_flight == old(self).in_flight + if launch { 1int } else { 0int },
            final(self).budget.limit == old(self).budget.limit,
            final(self).result == old(self).result,
    {
        if stopped {
            return false;
        }
        let launch = self.budget.try_take();
        if launch {
            self.in_flight = self.in_flight + 1;
        }
        launch
    }

    /// One of the worker's requests completed with `outcome` (status, size, latency and
    /// timings, or a failure): records it, then stops when the run is stopped, sends the
    /// next request while the share lasts, and otherwise waits for the rest.
    pub fn on_complete(&mut self, outcome: Result<(u16, u64, u64, RequestTimings), ()>, stopped: bool) -> (step:
        WorkerStep)
        requires
            old(self).wf(),
            old(self).in_flight > 0,
            outcome matches Ok((_, size, _, t)) ==> old(self).result.can_record(size, t),
            outcome is Err ==> old(self).result.errors < u64::MAX,
        ensures
            final(self).wf(),
            step == if stopped {
                WorkerStep::Stop
            } else if old(self).budget.sent < old(self).budget.limit {
                WorkerStep::SendNext
            } else {
                WorkerStep::Wait
            },
            final(self).in_flight == old(self).in_flight - 1 + if step == WorkerStep::SendNext { 1int } else { 0int },
            final(self).budget.limit == old(self).budget.limit,
            outcome matches Ok((status, size, latency_ns, t)) ==> {
                &&& final(self).result.latencies@ == old(self).result.latencies@.push(latency_ns)
                &&& final(self).result.status_codes@ == old(self).result.status_codes@.push(status)
                &&& final(self).result.bytes_recv == old(self).result.bytes_recv + size
                &&& final(self).result.write == old(self).result.write.recorded(t.write_ns)
                &&& final(self).result.wait == old(self).result.wait.recorded(t.wait_ns)
                &&& final(self).result.read == old(self).result.read.recorded(t.read_ns)
                &&& final(self).result.errors == old(self).result.errors
            },
            outcome is Err ==> {
                &&& final(self).result.errors == old(self).result.errors + 1
                &&& final(self).result.latencies@ == old(self).result.latencies@
                &&& final(self).result.status_codes@ == old(self).result.status_codes@
                &&& final(self).result.bytes_recv == old(self).result.bytes_recv
                &&& final(self).result.write == old(self).result.write
                &&& final(self).result.wait == old(self).result.wait
                &&& final(self).result.read == old(self).result.read
            },
            final(self).result.drain_aborted == old(self).result.drain_aborted,
    {
        match outcome {
            Ok((status, size, latency_ns, t)) => {
                self.result.record_success(status, size, latency_ns, t);
            },
            Err(()) => {
                self.result.record_error();
            },
        }
        self.in_flight = self.in_flight - 1;
        if stopped {
            return WorkerStep::Stop;
        }
        if self.budget.try_take() {
            self.in_flight = self.in_flight + 1;
            WorkerStep::SendNext
        } else {
            WorkerStep::Wait
        }
    }
}

/// A worker's accounts add up: whatever happens, it has recorded no more requests than
/// its share, and once nothing is in flight it has recorded each request it started.
pub proof fn lemma_worker_accounts(w: WorkerLoop)
    requires
        w.wf(),
    ensures
        w.result.latencies@.len() + w.result.errors <= w.budget.limit,
        w.in_flight == 0 ==> w.result.latencies@.len() + w.result.errors == w.budget.sent,
{
}

/// Connections each worker aims to manage.
pub const TARGET_CONNS: usize = 128;

/// The number of workers: `concurrency / 128` rounded up, so that no worker manages
/// more than 128 connections until the cap; at least one, at most two per CPU, and never
/// more than the connections. (With 16 CPUs: 50 connections take 1 worker, 200 take 2,
/// 500 take 4, 1000 take 8, 2000 take 16, 5000 and more take 32.)
pub open spec fn worker_count_spec(concurrency: int, cpus: int) -> int {
    let up = (concurrency + 127) / 128;
    let by_target = if up > 1 { up } else { 1 };
    let capped = if by_target < cpus * 2 { by_target } else { cpus * 2 };
    if capped < concurrency { capped } else { concurrency }
}

pub fn worker_count(concurrency: usize, cpus: usize) -> (n: usize)
    requires
        cpus <= usize::MAX / 2,
    ensures
        n == worker_count_spec(concurrency as int, cpus as int),
{
    let up = concurrency / TARGET_CONNS + if concurrency % TARGET_CONNS != 0 { 1 } else { 0 };
    assert(up == (concurrency + 127) / 128) by {
        vstd::arithmetic::div_mod::lemma_fundamental_div_mod(concurrency as int, 128);
        vstd::arithmetic::div_mod::lemma_fundamental_div_mod((concurrency + 127) as int, 128);
    }
    let by_target = if up > 1 { up } else { 1 };
    let max_workers = cpus * 2;
    let capped = if by_target < max_workers { by_target } else { max_workers };
    if capped < concurrency { capped } else { concurrency }
}

/// Connections opened at the same time before the run: at most 256.
pub fn connect_limit(concurrency: usize) -> (n: usize)
    ensures
        n == if concurrency < 256 { concurrency } else { 256 },
{
    if concurrency < 256 { concurrency } else { 256 }
}

/// The requests worker `i` of `workers` runs: an even share of `total`, the first
/// `total % workers` workers one more; unbounded in duration mode.
pub open spec fn worker_share(total: nat, workers: nat, i: nat, duration_mode: bool) -> nat {
    if duration_mode {
        usize::MAX as nat
    } else {
        total / workers + if i < total % workers { 1nat } else { 0nat }
    }
}

/// The per-worker request counts.
pub fn requests_per_worker(total: usize, workers: usize, duration_mode: bool) -> (v: Vec<usize>)
    requires
        workers >= 1,
    ensures
        v@.len() == workers,
        forall|i: int|
            0 <= i < workers ==> #[trigger] v@[i] as nat == worker_share(
                total as nat,
                workers as nat,
                i as nat,
                duration_mode,
            ),
{
    let base = if duration_mode { usize::MAX } else { total / workers };
    let extra = if duration_mode { 0 } else { total % workers };
    let mut v: Vec<usize> = Vec::new();
    let mut i: usize = 0;
    while i < workers
        invariant
            i <= workers,
            workers >= 1,
            base == if duration_mode { usize::MAX } else { total / workers },
            extra == if duration_mode { 0 } else { total % workers },
            v@.len() == i,
            forall|j: int|
                0 <= j < i ==> #[trigger] v@[j] as nat == worker_share(
                    total as nat,
                    workers as nat,
                    j as nat,
                    duration_mode,
                ),
        decreases workers - i,
    {
        proof {
            if !duration_mode {
                vstd::arithmetic::div_mod::lemma_fundamental_div_mod(total as int, workers as int);
                assert(base + 1 <= total || extra == 0) by (nonlinear_arith)
                    requires
                        total == workers * base + extra,
                        extra < workers,
                        workers >= 1,
                ;
            }
        }
        let n = if i < extra { base + 1 } else { base };
        v.push(n);
        i += 1;
    }
    v
}

/// The sum of `worker_share` over the first `k` workers.
pub open spec fn shares_sum(total: nat, workers: nat, k: nat) -> nat
    decreases k,
{
    if k == 0 {
        0
    } else {
        shares_sum(total, workers, (k - 1) as nat) + worker_share(total, workers, (k - 1) as nat, false)
    }
}

proof fn lemma_shares_prefix(total: nat, workers: nat, k: nat)
    requires
        workers >= 1,
        k <= workers,
    ensures
        shares_sum(total, workers, k) == k * (total / workers) + if k < total % workers {
            k
        } else {
            total % workers
        },
    decreases k,
{
    let d = total / workers;
    let e = total % workers;
    if k > 0 {
        lemma_shares_prefix(total, workers, (k - 1) as nat);
        assert(k * d == (k - 1) * d + d) by (nonlinear_arith);
        assert(shares_sum(total, workers, k) == shares_sum(total, workers, (k - 1) as nat)
            + worker_share(total, workers, (k - 1) as nat, false));
        assert(worker_share(total, workers, (k - 1) as nat, false) == d + if k - 1 < e { 1nat } else { 0nat });
    } else {
        assert(0 * d == 0) by (nonlinear_arith);
    }
}

/// Splitting `total` requests over `workers` loses and invents none: the shares add up
/// to `total`, and no two shares differ by more than one.
pub proof fn lemma_shares_add_up(total: nat, workers: nat)
    requires
        workers >= 1,
    ensures
        shares_sum(total, workers, workers) == total,
        forall|i: nat, j: nat|
            i < workers && j < workers ==> worker_share(total, workers, i, false) <= worker_share(
                total,
                workers,
                j,
                false,
            ) + 1,
{
    lemma_shares_prefix(total, workers, workers);
    vstd::arithmetic::div_mod::lemma_fundamental_div_mod(total as int, workers as int);
    assert(total % workers < workers) by {
        vstd::arithmetic::div_mod::lemma_mod_bound(total as int, workers as int);
    }
    assert(workers * (total / workers) == (total / workers) * workers) by (nonlinear_arith);
}

/// How many of the indices `0..len` are congruent to `w` modulo `n`.
pub open spec fn round_robin_count(len: int, n: int, w: int) -> int {
    (len + n - 1 - w) / n
}

proof fn lemma_round_robin_step(i: int, n: int, w: int)
    requires
        n >= 1,
        0 <= w < n,
        0 <= i,
    ensures
        round_robin_count(i + 1, n, w) == round_robin_count(i, n, w) + if i % n == w { 1int } else { 0int },
        i % n == w ==> round_robin_count(i, n, w) == i / n,
{
    vstd::arithmetic::div_mod::lemma_fundamental_div_mod(i, n);
    let q = i / n;
    let r = i % n;
    assert(0 <= r < n) by {
        vstd::arithmetic::div_mod::lemma_mod_bound(i, n);
    }
    assert((q + 1) * n == q * n + n) by (nonlinear_arith);
    assert(i == q * n + r) by (nonlinear_arith)
        requires
            i == n * q + r,
    ;
    if r == w {
        assert(round_robin_count(i, n, w) == q) by {
            vstd::arithmetic::div_mod::lemma_fundamental_div_mod_converse(i + n - 1 - w, n, q, n - 1);
        }
        assert(round_robin_count(i + 1, n, w) == q + 1) by {
            vstd::arithmetic::div_mod::lemma_fundamental_div_mod_converse(i + n - w, n, q + 1, 0);
        }
    } else if r < w {
        assert(round_robin_count(i, n, w) == q) by {
            vstd::arithmetic::div_mod::lemma_fundamental_div_mod_converse(i + n - 1 - w, n, q, r + n - 1 - w);
        }
        assert(round_robin_count(i + 1, n, w) == q) by {
            vstd::arithmetic::div_mod::lemma_fundamental_div_mod_converse(i + n - w, n, q, r + n - w);
        }
    } else {
        assert(round_robin_count(i, n, w) == q + 1) by {
            vstd::arithmetic::div_mod::lemma_fundamental_div_mod_converse(i + n - 1 - w, n, q + 1, r - 1 - w);
        }
        assert(round_robin_count(i + 1, n, w) == q + 1) by {
            vstd::arithmetic::div_mod::lemma_fundamental_div_mod_converse(i + n - w, n, q + 1, r - w);
        }
    }
}

/// No connection is lost when connections are dealt out round-robin: connection `i`
/// has a place with worker `i % n`, at position `i / n`, which is where
/// `distribute_round_robin` puts it.
pub proof fn lemma_round_robin_places_every_item(len: int, n: int, i: int)
    requires
        n >= 1,
        0 <= i < len,
    ensures
        0 <= i % n < n,
        i / n < round_robin_count(len, n, i % n),
        i % n + (i / n) * n == i,
{
    let w = i % n;
    let q = i / n;
    vstd::arithmetic::div_mod::lemma_fundamental_div_mod(i, n);
    vstd::arithmetic::div_mod::lemma_mod_bound(i, n);
    assert(q * n == n * q) by (nonlinear_arith);
    vstd::arithmetic::div_mod::lemma_div_pos_is_pos(i, n);
    // (q + 1) * n <= len + n - 1 - w, so q + 1 <= (len + n - 1 - w) / n
    assert((q + 1) * n == q * n + n) by (nonlinear_arith);
    assert((q + 1) * n <= len + n - 1 - w);
    vstd::arithmetic::div_mod::lemma_div_is_ordered((q + 1) * n, len + n - 1 - w, n);
    vstd::arithmetic::div_mod::lemma_div_multiples_vanish(q + 1, n);
}

/// Deals `items` out to `n` workers round-robin: item `i` goes to worker `i % n`,
/// each worker keeping the order in which its items came. Worker `w` gets the items
/// `w, w + n, w + 2n, ...`.
pub fn distribute_round_robin<T>(items: Vec<T>, n: usize) -> (out: Vec<Vec<T>>)
    requires
        n >= 1,
    ensures
        out@.len() == n,
        forall|w: int|
            0 <= w < n ==> #[trigger] out@[w]@.len() == round_robin_count(items@.len() as int, n as int, w),
        forall|w: int, k: int|
            0 <= w < n && 0 <= k < out@[w]@.len() ==> #[trigger] out@[w]@[k] == items@[w + k * n],
{
    let mut out: Vec<Vec<T>> = Vec::new();
    let mut k: usize = 0;
    while k < n
        invariant
            k <= n,
            out@.len() == k,
            forall|w: int| 0 <= w < k ==> #[trigger] out@[w]@.len() == 0,
        decreases n - k,
    {
        out.push(Vec::new());
        k += 1;
    }
    proof {
        assert forall|w: int| 0 <= w < n implies round_robin_count(0, n as int, w) == 0 by {
            vstd::arithmetic::div_mod::lemma_fundamental_div_mod_converse(n - 1 - w, n as int, 0, n - 1 - w);
        }
    }
    let ghost all = items@;
    let len = items.len();
    let mut i: usize = 0;
    for x in it: items.into_iter()
        invariant
            n >= 1,
            it.seq() == all,
            all.len() == len,
            i == it.index(),
            i <= len,
            out@.len() == n,
            forall|w: int| 0 <= w < n ==> #[trigger] out@[w]@.len() == round_robin_count(i as int, n as int, w),
            forall|w: int, k: int|
                0 <= w < n && 0 <= k < out@[w]@.len() ==> #[trigger] out@[w]@[k] == all[w + k * n],
    {
        let w = i % n;
        proof {
            assert forall|v: int| 0 <= v < n implies round_robin_count(i as int + 1, n as int, v)
                == round_robin_count(i as int, n as int, v) + if (i as int) % (n as int) == v { 1int } else { 0int } by {
                lemma_round_robin_step(i as int, n as int, v);
            }
            lemma_round_robin_step(i as int, n as int, w as int);
            vstd::arithmetic::div_mod::lemma_fundamental_div_mod(i as int, n as int);
            assert(w + (i / n) * n == i) by (nonlinear_arith)
                requires i == n * (i / n) + w;
        }
        out[w].push(x);
        i += 1;
    }
    out
}

} // verus!
