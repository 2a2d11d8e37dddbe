//! The per-tick metrics snapshot and the builder that keeps the smoothed
//! averages across ticks.
use vstd::prelude::*;
use vstd::arithmetic::div_mod::{lemma_div_by_multiple, lemma_div_is_ordered};

verus! {

/// Where a PSI record was read from.
#[derive(Debug, Clone, Copy, PartialEq, Eq, Structural)]
pub enum PsiScope {
    System,
    Cgroup,
}

/// A pressure-stall record. Averages are in hundredths of a percent (the two
/// decimals the kernel prints), totals in microseconds.
#[derive(Debug, Clone, Copy, PartialEq, Eq, Structural)]
pub struct Psi {
    pub some_avg10: u32,
    pub some_avg60: u32,
    pub some_avg300: u32,
    pub some_total_us: u64,
    pub full_avg10: u32,
    pub full_avg60: u32,
    pub full_avg300: u32,
    pub full_total_us: u64,
    pub scope: PsiScope,
}

/// Thresholds carried with every snapshot; the cutoffs are in thousandths.
#[derive(Debug, Clone, Copy, PartialEq, Eq, Structural)]
pub struct Config {
    pub llc_spread_threshold: u64,
    pub runq_compact_cutoff_milli: u32,
    pub runq_compact_cutoff_high_milli: u32,
    pub min_switch_interval_ms: u64,
}

/// One million: the sequential ratio is held in millionths.
pub const RATIO_ONE: u32 = 1_000_000;

/// The target's primary block device and the share of its accesses that were
/// sequential, in millionths.
#[derive(Debug, Clone)]
pub struct IoSnapshot {
    pub dev: String,
    pub seq_ratio_ppm: u32,
}

/// Everything the policy, planner and gate read in one tick. Smoothed delays
/// are in nanoseconds.
#[derive(Debug, Clone)]
pub struct Snapshot {
    pub target_pid: i32,
    pub threads: usize,
    pub runq_ewma_ns_mean: u64,
    pub futex_ewma_ns_mean: u64,
    pub page_faults_sum: u64,
    pub llc_delta_per_thread: u64,
    pub io: Option<IoSnapshot>,
    pub total_cpus: usize,
    pub comm_wake: u64,
    pub comm_futex: u64,
    pub spikes: u64,
    pub config: Config,
    pub psi: Option<Psi>,
    pub psi_mem: Option<Psi>,
}

impl Snapshot {
    /// A snapshot is valid when at least one CPU is online and the
    /// sequential ratio lies in `[0, 1]`.
    pub open spec fn wf(&self) -> bool {
        &&& self.total_cpus >= 1
        &&& (self.io matches Some(io) ==> io.seq_ratio_ppm <= RATIO_ONE)
    }
}

/// An event handed to the policy between ticks.
#[derive(Debug, Clone, Copy, PartialEq, Eq, Structural)]
pub enum Event {
    PrefetchFault { tgid: u32, dev: u64, ino: u64, pgoff: u64, ts_ns: u64 },
    FutexSpike { us: u64 },
}

/// What was read for one thread: its schedstat `(run_ns, runq_ns)` and its
/// minor-fault count, each absent when the read failed.
#[derive(Debug, Clone, Copy)]
pub struct ThreadSample {
    pub tid: i32,
    pub sched: Option<(u64, u64)>,
    pub minflt: Option<u64>,
}

/// The primary block device with the probe's sequential and random counts.
#[derive(Debug, Clone)]
pub struct IoSample {
    pub dev: String,
    pub seq: u64,
    pub rnd: u64,
}

/// Everything read from `/proc`, sysfs and the probes in one tick.
#[derive(Debug, Clone)]
pub struct RawSample {
    pub target_pid: i32,
    pub threads: Vec<ThreadSample>,
    pub agg_futex_us: u64,
    pub llc_misses: u64,
    pub io: Option<IoSample>,
    pub online_cpus: usize,
    pub comm_wake: u64,
    pub comm_futex: u64,
    pub spikes: u64,
    pub psi: Option<Psi>,
    pub psi_mem: Option<Psi>,
}

/// The run-queue time previously seen for `tid`, if any.
pub open spec fn prev_runq(prev: Seq<(i32, u64)>, tid: i32) -> Option<u64>
    decreases prev.len(),
{
    if prev.len() == 0 {
        None
    } else if prev[0].0 == tid {
        Some(prev[0].1)
    } else {
        prev_runq(prev.drop_first(), tid)
    }
}

/// The run-queue time each thread gained since `prev`, summed (ns); threads
/// not seen before count nothing.
pub open spec fn runq_delta(threads: Seq<ThreadSample>, prev: Seq<(i32, u64)>) -> int
    decreases threads.len(),
{
    if threads.len() == 0 {
        0
    } else {
        let t = threads.last();
        runq_delta(threads.drop_last(), prev) + match (t.sched, prev_runq(prev, t.tid)) {
            (Some((_, now)), Some(before)) => if now >= before { now - before } else { 0 },
            _ => 0,
        }
    }
}

/// The run-queue times of the threads whose schedstat was read.
pub open spec fn sched_seen(threads: Seq<ThreadSample>) -> Seq<(i32, u64)>
    decreases threads.len(),
{
    if threads.len() == 0 {
        Seq::empty()
    } else {
        let t = threads.last();
        sched_seen(threads.drop_last()) + match t.sched {
            Some((_, runq)) => seq![(t.tid, runq)],
            None => Seq::empty(),
        }
    }
}

/// The minor faults of all threads, summed.
pub open spec fn fault_sum(threads: Seq<ThreadSample>) -> int
    decreases threads.len(),
{
    if threads.len() == 0 {
        0
    } else {
        fault_sum(threads.drop_last()) + match threads.last().minflt {
            Some(f) => f as int,
            None => 0,
        }
    }
}

pub open spec fn cap_u64(x: int) -> u64 {
    if x > u64::MAX { u64::MAX } else { x as u64 }
}

pub open spec fn at_least_one(n: usize) -> int {
    if n >= 1 { n as int } else { 1 }
}

/// `(keep·prev + (10 − keep)·sample) / 10`.
pub open spec fn ewma_tenths(prev: u64, sample: u64, keep: int) -> u64 {
    ((keep * prev + (10 - keep) * sample) / 10) as u64
}

/// The sequential share in millionths: `seq / (seq + rnd)`, 0 when both are 0.
pub open spec fn seq_ratio(seq: u64, rnd: u64) -> u32 {
    if seq + rnd == 0 { 0 } else { ((1_000_000 * seq) / (seq + rnd)) as u32 }
}

/// Cross-tick state of the snapshot builder: the run-queue times of the
/// previous tick and the two smoothed averages (nanoseconds).
pub struct SnapshotBuilder {
    prev: Option<Vec<(i32, u64)>>,
    runq_ewma: u64,
    futex_ewma_total: u64,
}

/// `n / d ≤ k` when `n ≤ k·d`.
pub(crate) proof fn lemma_div_at_most(n: int, k: int, d: int)
    requires
        0 <= n <= k * d,
        0 < d,
        0 <= k,
    ensures
        0 <= n / d <= k,
{
    lemma_div_is_ordered(n, k * d, d);
    lemma_div_by_multiple(k, d);
    lemma_div_is_ordered(0, n, d);
}

fn ewma(prev: u64, sample: u64, keep: u64) -> (r: u64)
    requires
        keep <= 10,
    ensures
        r == ewma_tenths(prev, sample, keep as int),
{
    proof {
        let m: int = if prev >= sample { prev as int } else { sample as int };
        assert(keep * prev + (10 - keep) * sample <= 10 * m) by (nonlinear_arith)
            requires
                0 <= keep <= 10,
                0 <= prev <= m,
                0 <= sample <= m,
        ;
        assert(keep * prev <= 10 * 18446744073709551615int) by (nonlinear_arith)
            requires
                0 <= keep <= 10,
                0 <= prev <= 18446744073709551615int,
        ;
        assert((10 - keep) * sample <= 10 * 18446744073709551615int) by (nonlinear_arith)
            requires
                0 <= keep <= 10,
                0 <= sample <= 18446744073709551615int,
        ;
        lemma_div_at_most(keep * prev + (10 - keep) * sample, m, 10);
    }
    (((keep as u128) * (prev as u128) + ((10 - keep) as u128) * (sample as u128)) / 10) as u64
}

fn lookup_prev(prev: &Vec<(i32, u64)>, tid: i32) -> (r: Option<u64>)
    ensures
        r == prev_runq(prev@, tid),
{
    let mut i: usize = 0;
    assert(prev@.subrange(0, prev@.len() as int) =~= prev@);
    while i < prev.len()
        invariant
            i <= prev@.len(),
            prev_runq(prev@, tid) == prev_runq(prev@.subrange(i as int, prev@.len() as int), tid),
        decreases prev@.len() - i,
    {
        let ghost rest = prev@.subrange(i as int, prev@.len() as int);
        assert(rest.drop_first() =~= prev@.subrange(i as int + 1, prev@.len() as int));
        if prev[i].0 == tid {
            return Some(prev[i].1);
        }
        i += 1;
    }
    None
}

fn runq_delta_exec(threads: &Vec<ThreadSample>, prev: &Vec<(i32, u64)>) -> (r: u128)
    ensures
        r == runq_delta(threads@, prev@),
        r <= threads@.len() * 18446744073709551615,
{
    let n = threads.len();
    let mut delta: u128 = 0;
    let mut j: usize = 0;
    while j < n
        invariant
            n == threads@.len(),
            j <= n,
            delta == runq_delta(threads@.take(j as int), prev@),
            delta <= j * 18446744073709551615,
        decreases n - j,
    {
        let t = threads[j];
        let ghost pre = threads@.take(j as int);
        let ghost post = threads@.take(j as int + 1);
        assert(post.drop_last() =~= pre);
        assert(post.last() == t);
        if let Some((_, now)) = t.sched {
            if let Some(before) = lookup_prev(prev, t.tid) {
                if now >= before {
                    delta = delta + (now - before) as u128;
                }
            }
        }
        j += 1;
    }
    assert(threads@.take(n as int) =~= threads@);
    delta
}

impl SnapshotBuilder {
    pub closed spec fn prev_seen(&self) -> Option<Seq<(i32, u64)>> {
        match self.prev {
            Some(v) => Some(v@),
            None => None,
        }
    }

    pub closed spec fn runq_ewma(&self) -> u64 {
        self.runq_ewma
    }

    pub closed spec fn futex_ewma_total(&self) -> u64 {
        self.futex_ewma_total
    }

    pub fn new() -> (r: SnapshotBuilder)
        ensures
            r.prev_seen() is None,
            r.runq_ewma() == 0,
            r.futex_ewma_total() == 0,
    {
        SnapshotBuilder { prev: None, runq_ewma: 0, futex_ewma_total: 0 }
    }

    /// Builds the tick's snapshot from `sample` and advances the averages:
    /// `runq ← 0.6·runq + 0.4·(Δrunq / max(1, threads))` where `Δrunq` is the
    /// run-queue time the threads gained since the previous tick (none on the
    /// first), and `futex ← 0.7·futex + 0.3·agg_futex_us`, reported per thread.
    pub fn build(&mut self, sample: &RawSample) -> (r: Snapshot)
        ensures
            r.wf(),
            ({
                let n = sample.threads@.len();
                let per = at_least_one(n as usize);
                let delta = match old(self).prev_seen() {
                    Some(p) => runq_delta(sample.threads@, p),
                    None => 0,
                };
                &&& r.target_pid == sample.target_pid
                &&& r.threads == n
                &&& final(self).runq_ewma() == ewma_tenths(
                    old(self).runq_ewma(),
                    cap_u64(delta / per),
                    6,
                )
                &&& r.runq_ewma_ns_mean == final(self).runq_ewma()
                &&& final(self).futex_ewma_total() == ewma_tenths(
                    old(self).futex_ewma_total(),
                    cap_u64(sample.agg_futex_us * 1000),
                    7,
                )
                &&& r.futex_ewma_ns_mean == (final(self).futex_ewma_total() as int) / per
                &&& final(self).prev_seen() == Some(sched_seen(sample.threads@))
                &&& r.page_faults_sum == cap_u64(fault_sum(sample.threads@))
                &&& r.llc_delta_per_thread == (sample.llc_misses as int) / per
                &&& r.total_cpus == at_least_one(sample.online_cpus)
                &&& r.comm_wake == sample.comm_wake
                &&& r.comm_futex == sample.comm_futex
                &&& r.spikes == sample.spikes
                &&& r.psi == sample.psi
                &&& r.psi_mem == sample.psi_mem
                &&& match sample.io {
                    Some(io) => r.io matches Some(rio) && rio.dev@ == io.dev@ && rio.seq_ratio_ppm == seq_ratio(io.seq, io.rnd),
                    None => r.io is None,
                }
            }),
    {
        let n = sample.threads.len();
        let per: usize = if n >= 1 { n } else { 1 };
        let mut current: Vec<(i32, u64)> = Vec::new();
        let mut faults: u128 = 0;
        let mut i: usize = 0;
        while i < n
            invariant
                n == sample.threads@.len(),
                i <= n,
                current@ == sched_seen(sample.threads@.take(i as int)),
                faults == fault_sum(sample.threads@.take(i as int)),
                faults <= i * 18446744073709551615,
            decreases n - i,
        {
            let t = sample.threads[i];
            let ghost pre = sample.threads@.take(i as int);
            let ghost post = sample.threads@.take(i as int + 1);
            assert(post.drop_last() =~= pre);
            assert(post.last() == t);
            if let Some((_, runq)) = t.sched {
                current.push((t.tid, runq));
            }
            if let Some(f) = t.minflt {
                faults = faults + f as u128;
            }
            i += 1;
            assert(current@ =~= sched_seen(post));
        }
        assert(sample.threads@.take(n as int) =~= sample.threads@);
        let delta: u128 = match &self.prev {
            Some(prev) => runq_delta_exec(&sample.threads, prev),
            None => 0,
        };
        let per_tick = delta / per as u128;
        let per_tick_ns: u64 = if per_tick > u64::MAX as u128 { u64::MAX } else { per_tick as u64 };
        self.runq_ewma = ewma(self.runq_ewma, per_tick_ns, 6);
        let futex_ns = (sample.agg_futex_us as u128) * 1000;
        let futex_sample: u64 = if futex_ns > u64::MAX as u128 { u64::MAX } else { futex_ns as u64 };
        self.futex_ewma_total = ewma(self.futex_ewma_total, futex_sample, 7);
        self.prev = Some(current);
        let io = match &sample.io {
            Some(io) => {
                let total = io.seq as u128 + io.rnd as u128;
                let ratio: u32 = if total == 0 {
                    0
                } else {
                    proof {
                        assert(1_000_000 * io.seq <= 1_000_000 * total) by (nonlinear_arith)
                            requires
                                io.seq <= total,
                        ;
                        lemma_div_at_most(1_000_000 * io.seq, 1_000_000, total as int);
                    }
                    ((1_000_000 * io.seq as u128) / total) as u32
                };
                Some(IoSnapshot { dev: io.dev.clone(), seq_ratio_ppm: ratio })
            },
            None => None,
        };
        let faults_sum: u64 = if faults > u64::MAX as u128 { u64::MAX } else { faults as u64 };
        Snapshot {
            target_pid: sample.target_pid,
            threads: n,
            runq_ewma_ns_mean: self.runq_ewma,
            futex_ewma_ns_mean: self.futex_ewma_total / per as u64,
            page_faults_sum: faults_sum,
            llc_delta_per_thread: sample.llc_misses / per as u64,
            io,
            total_cpus: if sample.online_cpus >= 1 { sample.online_cpus } else { 1 },
            comm_wake: sample.comm_wake,
            comm_futex: sample.comm_futex,
            spikes: sample.spikes,
            config: default_config(),
            psi: sample.psi,
            psi_mem: sample.psi_mem,
        }
    }
}

/// The thresholds every snapshot carries.
pub fn default_config() -> (r: Config)
    ensures
        r == (Config {
            llc_spread_threshold: 1000,
            runq_compact_cutoff_milli: 300,
            runq_compact_cutoff_high_milli: 700,
            min_switch_interval_ms: 1200,
        }),
{
    Config {
        llc_spread_threshold: 1000,
        runq_compact_cutoff_milli: 300,
        runq_compact_cutoff_high_milli: 700,
        min_switch_interval_ms: 1200,
    }
}

} // verus!
