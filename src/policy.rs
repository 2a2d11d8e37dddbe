//! The learned policy: smoothing, idle guard, arm masking, dwell discipline
//! and delayed reward crediting around a LinUCB bandit.
//!
//! A tick has two halves. [`Learned::tick`] smooths the snapshot, applies the
//! idle guard, credits the rewards that fell due, and returns the allowed arms
//! with the feature vector. The caller evaluates the bandit's upper confidence
//! bounds on [`Learned::bandit`] and draws its time-based random number; then
//! [`Learned::decide`] picks the arm, queues its reward and returns its actions.
use vstd::prelude::*;
use vstd::arithmetic::div_mod::lemma_div_is_ordered;
use crate::actions::{Action, PrefetchAction};
use crate::bandit::{applied, features_in_range, LinUcb, UNIT};
use crate::metrics::{lemma_div_at_most, Event, Psi, Snapshot};
use crate::stride::{plan_matches, push_bounded, FileKey, PrefetchModel};

verus! {

pub const NUM_ARMS: usize = 5;

/// Ticks between choosing an arm and crediting it.
pub const EFFECT_DELAY_TICKS: u32 = 4;

/// Minimum time on a NUMA arm before other families are reconsidered.
pub const MIN_DWELL_MS: u64 = 5000;

/// Exploration coefficient of the bandit, in thousandths.
pub const UCB_ALPHA_MILLI: u32 = 750;

/// Weight written by arm 1.
pub const ARM_CPU_WEIGHT: u32 = 160;

/// Nice value set by arm 2.
pub const ARM_NICE: i32 = -1;

/// Settings of the policy. `epsilon_bp` is the exploration probability in
/// ten-thousandths, `smooth_alpha_pct` the smoothing factor in percent.
#[derive(Debug, Clone, Copy)]
pub struct LearnedCfg {
    pub epsilon_bp: u32,
    pub min_threads_for_numa: usize,
    pub allow_cpu_weight: bool,
    pub smooth_alpha_pct: u32,
    pub enabled_arms: [bool; 5],
}

impl LearnedCfg {
    pub open spec fn wf(&self) -> bool {
        self.smooth_alpha_pct <= 100
    }
}

impl Default for LearnedCfg {
    fn default() -> (r: LearnedCfg)
        ensures
            r.epsilon_bp == 500,
            r.min_threads_for_numa == 2,
            r.allow_cpu_weight,
            r.smooth_alpha_pct == 20,
            forall|i: int| 0 <= i < 5 ==> #[trigger] r.enabled_arms[i],
    {
        LearnedCfg {
            epsilon_bp: 500,
            min_threads_for_numa: 2,
            allow_cpu_weight: true,
            smooth_alpha_pct: 20,
            enabled_arms: [true, true, true, true, true],
        }
    }
}

/// A reward owed to `arm` for the features `x`, due in `due` ticks, measured
/// against the score `baseline` of the tick it was chosen at.
#[derive(Debug, Clone, Copy)]
pub struct Pending {
    pub arm: usize,
    pub x: [i64; 4],
    pub due: u32,
    pub baseline: u64,
}

/// The entries of `q` that fall due at the next tick, in order.
pub open spec fn credited(q: Seq<Pending>) -> Seq<Pending>
    decreases q.len(),
{
    if q.len() == 0 {
        Seq::empty()
    } else {
        credited(q.drop_last()) + if q.last().due <= 1 {
            seq![q.last()]
        } else {
            Seq::empty()
        }
    }
}

/// The entries of `q` still pending after the next tick, one tick closer.
pub open spec fn remaining(q: Seq<Pending>) -> Seq<Pending>
    decreases q.len(),
{
    if q.len() == 0 {
        Seq::empty()
    } else {
        remaining(q.drop_last()) + if q.last().due <= 1 {
            Seq::empty()
        } else {
            seq![Pending { due: (q.last().due - 1) as u32, ..q.last() }]
        }
    }
}

/// `q` one tick later, when the tick credits nothing: every due lowered by one.
pub open spec fn lowered(q: Seq<Pending>) -> Seq<Pending> {
    q.map_values(|p: Pending| Pending { due: if p.due > 0 { (p.due - 1) as u32 } else { 0 }, ..p })
}

/// Relative improvement of `current` over `baseline`, in millionths, rounded
/// toward zero and clamped to `[-1, 1]`: `(baseline − current) / max(1, baseline)`.
pub open spec fn reward_of(baseline: u64, current: u64) -> i64 {
    let m = if baseline >= UNIT { baseline as int } else { UNIT as int };
    if baseline >= current {
        let v = (UNIT * (baseline - current)) / m;
        (if v > UNIT { UNIT as int } else { v }) as i64
    } else {
        let v = (UNIT * (current - baseline)) / m;
        (-(if v > UNIT { UNIT as int } else { v })) as i64
    }
}

/// The bandit observations that crediting `c` at score `current` makes.
pub open spec fn observations(c: Seq<Pending>, current: u64) -> Seq<(usize, [i64; 4], i64)> {
    c.map_values(|p: Pending| (p.arm, p.x, reward_of(p.baseline, current)))
}

/// `(alpha·raw + (100 − alpha)·prev) / 100`.
pub open spec fn smoothed(prev: u64, raw: u64, alpha_pct: u32) -> u64 {
    ((alpha_pct * raw + (100 - alpha_pct) * prev) / 100) as u64
}

pub open spec fn some10(p: Option<Psi>) -> u32 {
    match p {
        Some(p) => p.some_avg10,
        None => 0,
    }
}

pub open spec fn full10(p: Option<Psi>) -> u32 {
    match p {
        Some(p) => p.full_avg10,
        None => 0,
    }
}

/// The idle guard: all 10-second pressures below 0.2% (some) and 0.05% (full),
/// and smoothed run-queue plus futex delay below 200 µs.
pub open spec fn idle_guard(snap: Snapshot, sm_runq: u64, sm_futex: u64) -> bool {
    &&& some10(snap.psi) < 20
    &&& full10(snap.psi) < 5
    &&& some10(snap.psi_mem) < 20
    &&& full10(snap.psi_mem) < 5
    &&& sm_runq + sm_futex < 200_000
}

/// Memory pressure that rules out spreading: some above 0.5% or full above 0.05%.
pub open spec fn mem_pressured(snap: Snapshot) -> bool {
    some10(snap.psi_mem) > 50 || full10(snap.psi_mem) > 5
}

/// `max(runq + futex, 1 µs)`, in nanoseconds.
pub open spec fn load_total(runq: u64, futex: u64) -> int {
    if runq + futex >= 1000 { runq + futex } else { 1000 }
}

/// The score in millionths:
/// `(runq + 1.4·futex)/(total + 1 µs) + 0.1·futex/total + 0.5·cpu.some + 1.0·cpu.full
/// + 0.7·mem.some + 1.3·mem.full`, pressures as fractions.
pub open spec fn score_of(snap: Snapshot, runq: u64, futex: u64) -> u64 {
    let t = load_total(runq, futex);
    ((100_000 * (10 * runq + 14 * futex)) / (t + 1000) + (100_000 * futex) / t + 50 * some10(snap.psi)
        + 100 * full10(snap.psi) + 70 * some10(snap.psi_mem) + 130 * full10(snap.psi_mem)) as u64
}

/// The features in millionths: `[1, min(runq/100 ms, 1), futex share,
/// min(threads/total_cpus, 1)]`.
pub open spec fn features_of(snap: Snapshot, runq: u64, futex: u64) -> [i64; 4] {
    let t = load_total(runq, futex);
    let x1 = if (runq as int) / 100 > UNIT { UNIT as int } else { (runq as int) / 100 };
    let x2 = if (UNIT * futex) / t > UNIT { UNIT as int } else { (UNIT * futex) / t };
    let x3 = if snap.total_cpus == 0 {
        0
    } else if (UNIT * snap.threads) / (snap.total_cpus as int) > UNIT {
        UNIT as int
    } else {
        (UNIT * snap.threads) / (snap.total_cpus as int)
    };
    [UNIT, x1 as i64, x2 as i64, x3 as i64]
}

/// A NUMA arm was switched to less than `MIN_DWELL_MS` ago.
pub open spec fn dwell_active(last_switch: Option<u64>, now_ms: u64) -> bool {
    &&& last_switch matches Some(sw)
    &&& (now_ms < sw || now_ms - sw < MIN_DWELL_MS)
}

/// Whether `arm` passes the masks before the fallback.
pub open spec fn arm_permitted(cfg: LearnedCfg, snap: Snapshot, dwell: bool, arm: int) -> bool {
    &&& cfg.enabled_arms[arm]
    &&& (arm == 1 ==> cfg.allow_cpu_weight)
    &&& (arm == 3 || arm == 4 ==> snap.total_cpus >= 2 && snap.threads >= cfg.min_threads_for_numa)
    &&& (arm == 4 ==> !mem_pressured(snap))
    &&& (dwell ==> arm == 0 || arm == 3 || arm == 4)
}

pub open spec fn if_permitted(cfg: LearnedCfg, snap: Snapshot, dwell: bool, arm: usize) -> Seq<usize> {
    if arm_permitted(cfg, snap, dwell, arm as int) {
        seq![arm]
    } else {
        Seq::empty()
    }
}

/// The arms that pass the masks, ascending.
pub open spec fn masked_arms(cfg: LearnedCfg, snap: Snapshot, dwell: bool) -> Seq<usize> {
    if_permitted(cfg, snap, dwell, 0) + if_permitted(cfg, snap, dwell, 1) + if_permitted(cfg, snap, dwell, 2)
        + if_permitted(cfg, snap, dwell, 3) + if_permitted(cfg, snap, dwell, 4)
}

/// The allowed arms: the masked arms, or `{0}` when none pass; a lone `{0}`
/// gains arm 1 when permitted, else arm 2 when enabled.
pub open spec fn allowed_arms(cfg: LearnedCfg, snap: Snapshot, dwell: bool) -> Seq<usize> {
    let m = masked_arms(cfg, snap, dwell);
    let base = if m.len() == 0 { seq![0usize] } else { m };
    if base == seq![0usize] {
        if cfg.enabled_arms[1] && cfg.allow_cpu_weight {
            seq![0usize, 1usize]
        } else if cfg.enabled_arms[2] {
            seq![0usize, 2usize]
        } else {
            base
        }
    } else {
        base
    }
}

/// The ε-greedy choice: with `draw mod 10⁴ < epsilon_bp`, the allowed arm at
/// `draw mod |allowed|`; otherwise the bandit's pick.
pub open spec fn chosen_arm(allowed: Seq<usize>, epsilon_bp: u32, draw: u32, bandit_pick: usize) -> usize {
    if epsilon_bp > 0 && draw % 10000 < epsilon_bp {
        allowed[(draw as int) % allowed.len() as int]
    } else {
        bandit_pick
    }
}

/// `clamp(threads, 1, max(total_cpus, 1))`.
pub open spec fn spread_width(snap: Snapshot) -> usize {
    let hi = if snap.total_cpus >= 1 { snap.total_cpus } else { 1 };
    if snap.threads < 1 {
        1
    } else if snap.threads > hi {
        hi
    } else {
        snap.threads
    }
}

/// The action of `arm`, if it has one.
pub open spec fn arm_action(arm: usize, snap: Snapshot) -> Option<Action> {
    if arm == 1 {
        Some(Action::SetCpuWeight { weight: ARM_CPU_WEIGHT })
    } else if arm == 2 {
        Some(Action::SetNice { prio: ARM_NICE })
    } else if arm == 3 {
        Some(Action::CompactWithinNUMA { node: None })
    } else if arm == 4 {
        Some(Action::SpreadAcrossNUMA { width: spread_width(snap) })
    } else {
        None
    }
}


/// Every pending entry names a real arm, carries in-range features and is due
/// within `EFFECT_DELAY_TICKS` ticks.
pub open spec fn pending_ok(q: Seq<Pending>) -> bool {
    forall|i: int|
        0 <= i < q.len() ==> #[trigger] q[i].arm < NUM_ARMS && features_in_range(q[i].x) && q[i].due <= EFFECT_DELAY_TICKS
}

fn psi_some10(p: &Option<Psi>) -> (r: u32)
    ensures
        r == some10(*p),
{
    match p {
        Some(p) => p.some_avg10,
        None => 0,
    }
}

fn psi_full10(p: &Option<Psi>) -> (r: u32)
    ensures
        r == full10(*p),
{
    match p {
        Some(p) => p.full_avg10,
        None => 0,
    }
}

fn smooth(prev: u64, raw: u64, alpha_pct: u32) -> (r: u64)
    requires
        alpha_pct <= 100,
    ensures
        r == smoothed(prev, raw, alpha_pct),
{
    let a = alpha_pct as u128;
    proof {
        let m: int = if prev >= raw { prev as int } else { raw as int };
        assert(a * raw + (100 - a) * prev <= 100 * m) by (nonlinear_arith)
            requires
                0 <= a <= 100,
                0 <= raw <= m,
                0 <= prev <= m,
        ;
        assert(a * raw <= 100 * 18446744073709551615int) by (nonlinear_arith)
            requires
                0 <= a <= 100,
                0 <= raw <= 18446744073709551615int,
        ;
        assert((100 - a) * prev <= 100 * 18446744073709551615int) by (nonlinear_arith)
            requires
                0 <= a <= 100,
                0 <= prev <= 18446744073709551615int,
        ;
        lemma_div_at_most(a * raw + (100 - a) * prev, m, 100);
    }
    let num = a * (raw as u128) + (100 - a) * (prev as u128);
    (num / 100) as u64
}

fn score(snap: &Snapshot, runq: u64, futex: u64) -> (r: u64)
    ensures
        r == score_of(*snap, runq, futex),
{
    let sum = runq as u128 + futex as u128;
    let t: u128 = if sum >= 1000 { sum } else { 1000 };
    let num1 = 100_000 * (10 * (runq as u128) + 14 * (futex as u128));
    let t1 = num1 / (t + 1000);
    let t2 = (100_000 * (futex as u128)) / t;
    proof {
        assert(num1 <= 1_400_000 * (t + 1000)) by (nonlinear_arith)
            requires
                num1 == 100_000 * (10 * runq + 14 * futex),
                runq + futex <= t,
                0 <= runq,
                0 <= futex,
        ;
        lemma_div_at_most(num1 as int, 1_400_000, (t + 1000) as int);
        assert(100_000 * futex <= 100_000 * t) by (nonlinear_arith)
            requires
                futex <= t,
        ;
        lemma_div_at_most(100_000 * futex, 100_000, t as int);
    }
    let cs = psi_some10(&snap.psi) as u128;
    let cf = psi_full10(&snap.psi) as u128;
    let ms = psi_some10(&snap.psi_mem) as u128;
    let mf = psi_full10(&snap.psi_mem) as u128;
    (t1 + t2 + 50 * cs + 100 * cf + 70 * ms + 130 * mf) as u64
}

fn features(snap: &Snapshot, runq: u64, futex: u64) -> (r: [i64; 4])
    ensures
        r == features_of(*snap, runq, futex),
        features_in_range(r),
{
    let sum = runq as u128 + futex as u128;
    let t: u128 = if sum >= 1000 { sum } else { 1000 };
    let unit = UNIT as u128;
    let r1 = runq as u128 / 100;
    let x1: i64 = if r1 > unit { UNIT } else { r1 as i64 };
    let share = (unit * (futex as u128)) / t;
    let x2: i64 = if share > unit { UNIT } else { share as i64 };
    let x3: i64 = if snap.total_cpus == 0 {
        0
    } else {
        let over = (unit * (snap.threads as u128)) / (snap.total_cpus as u128);
        if over > unit { UNIT } else { over as i64 }
    };
    proof {
        lemma_div_is_ordered(0, runq as int, 100);
        lemma_div_is_ordered(0, unit * futex, t as int);
        if snap.total_cpus != 0 {
            lemma_div_is_ordered(0, unit * snap.threads, snap.total_cpus as int);
        }
    }
    let r = [UNIT, x1, x2, x3];
    assert(r =~= features_of(*snap, runq, futex));
    r
}

fn reward(baseline: u64, current: u64) -> (r: i64)
    ensures
        r == reward_of(baseline, current),
        -UNIT <= r <= UNIT,
{
    let unit = UNIT as u128;
    let m: u128 = if baseline as u128 >= unit { baseline as u128 } else { unit };
    if baseline >= current {
        let v = (unit * ((baseline - current) as u128)) / m;
        proof {
            lemma_div_is_ordered(0, unit * (baseline - current), m as int);
        }
        if v > unit { UNIT } else { v as i64 }
    } else {
        let v = (unit * ((current - baseline) as u128)) / m;
        proof {
            lemma_div_is_ordered(0, unit * (current - baseline), m as int);
        }
        if v > unit { -UNIT } else { -(v as i64) }
    }
}

fn mem_pressured_exec(snap: &Snapshot) -> (r: bool)
    ensures
        r == mem_pressured(*snap),
{
    psi_some10(&snap.psi_mem) > 50 || psi_full10(&snap.psi_mem) > 5
}

fn permitted(cfg: &LearnedCfg, snap: &Snapshot, dwell: bool, arm: usize) -> (r: bool)
    requires
        arm < NUM_ARMS,
    ensures
        r == arm_permitted(*cfg, *snap, dwell, arm as int),
{
    if !cfg.enabled_arms[arm] {
        return false;
    }
    if arm == 1 && !cfg.allow_cpu_weight {
        return false;
    }
    if (arm == 3 || arm == 4) && !(snap.total_cpus >= 2 && snap.threads >= cfg.min_threads_for_numa) {
        return false;
    }
    if arm == 4 && mem_pressured_exec(snap) {
        return false;
    }
    if dwell && !(arm == 0 || arm == 3 || arm == 4) {
        return false;
    }
    true
}

/// The arms the policy may choose from on `snap`, ascending.
pub fn allowed(cfg: &LearnedCfg, snap: &Snapshot, dwell: bool) -> (r: Vec<usize>)
    ensures
        r@ == allowed_arms(*cfg, *snap, dwell),
        r@.len() > 0,
        forall|i: int| 0 <= i < r@.len() ==> #[trigger] r@[i] < NUM_ARMS,
{
    let mut v: Vec<usize> = Vec::new();
    if permitted(cfg, snap, dwell, 0) {
        v.push(0);
    }
    let ghost v0 = v@;
    if permitted(cfg, snap, dwell, 1) {
        v.push(1);
    }
    assert(v@ =~= v0 + if_permitted(*cfg, *snap, dwell, 1));
    let ghost v1 = v@;
    if permitted(cfg, snap, dwell, 2) {
        v.push(2);
    }
    assert(v@ =~= v1 + if_permitted(*cfg, *snap, dwell, 2));
    let ghost v2 = v@;
    if permitted(cfg, snap, dwell, 3) {
        v.push(3);
    }
    assert(v@ =~= v2 + if_permitted(*cfg, *snap, dwell, 3));
    let ghost v3 = v@;
    if permitted(cfg, snap, dwell, 4) {
        v.push(4);
    }
    assert(v@ =~= v3 + if_permitted(*cfg, *snap, dwell, 4));
    assert(v0 =~= if_permitted(*cfg, *snap, dwell, 0));
    assert(v@ =~= masked_arms(*cfg, *snap, dwell));
    if v.len() == 0 {
        v.push(0);
    }
    let lone_zero = v.len() == 1 && v[0] == 0;
    assert(lone_zero <==> v@ == seq![0usize]) by {
        if v@.len() == 1 && v@[0] == 0 {
            assert(v@ =~= seq![0usize]);
        }
    }
    if lone_zero {
        if cfg.enabled_arms[1] && cfg.allow_cpu_weight {
            v.push(1);
        } else if cfg.enabled_arms[2] {
            v.push(2);
        }
    }
    assert(v@ =~= allowed_arms(*cfg, *snap, dwell));
    v
}

/// The ε-greedy choice between a uniform draw over `allowed` and the bandit's pick.
pub fn choose_arm(allowed: &Vec<usize>, epsilon_bp: u32, draw: u32, bandit_pick: usize) -> (r: usize)
    requires
        allowed@.len() > 0,
    ensures
        r == chosen_arm(allowed@, epsilon_bp, draw, bandit_pick),
{
    if epsilon_bp > 0 && draw % 10000 < epsilon_bp {
        allowed[(draw as usize) % allowed.len()]
    } else {
        bandit_pick
    }
}

/// The actions arm `arm` stands for on `snap`.
pub fn pick_actions_for_arm(arm: usize, snap: &Snapshot) -> (r: Vec<Action>)
    ensures
        r@ == match arm_action(arm, *snap) {
            Some(a) => seq![a],
            None => Seq::empty(),
        },
{
    let mut v: Vec<Action> = Vec::new();
    if arm == 1 {
        v.push(Action::SetCpuWeight { weight: ARM_CPU_WEIGHT });
    } else if arm == 2 {
        v.push(Action::SetNice { prio: ARM_NICE });
    } else if arm == 3 {
        v.push(Action::CompactWithinNUMA { node: None });
    } else if arm == 4 {
        let hi = if snap.total_cpus >= 1 { snap.total_cpus } else { 1 };
        let width = if snap.threads < 1 {
            1
        } else if snap.threads > hi {
            hi
        } else {
            snap.threads
        };
        v.push(Action::SpreadAcrossNUMA { width });
    }
    assert(v@ =~= match arm_action(arm, *snap) {
        Some(a) => seq![a],
        None => Seq::<Action>::empty(),
    });
    v
}

/// What the caller needs to pick an arm.
pub struct ArmRequest {
    pub allowed: Vec<usize>,
    pub x: [i64; 4],
    pub score: u64,
}

pub struct Learned {
    prefetch: PrefetchModel,
    bandit: LinUcb,
    last_arm: Option<usize>,
    sm_runq: u64,
    sm_futex: u64,
    cfg: LearnedCfg,
    last_switch: Option<u64>,
    last_switch_score: Option<u64>,
    ticks_since_switch: u32,
    pending: Vec<Pending>,
}

impl Learned {
    pub closed spec fn sm_runq(&self) -> u64 {
        self.sm_runq
    }

    pub closed spec fn sm_futex(&self) -> u64 {
        self.sm_futex
    }

    pub closed spec fn cfg(&self) -> LearnedCfg {
        self.cfg
    }

    pub closed spec fn last_arm(&self) -> Option<usize> {
        self.last_arm
    }

    /// When a NUMA arm was last switched to, in the caller's milliseconds.
    pub closed spec fn last_switch(&self) -> Option<u64> {
        self.last_switch
    }

    pub closed spec fn last_switch_score(&self) -> Option<u64> {
        self.last_switch_score
    }

    pub closed spec fn ticks_since_switch(&self) -> u32 {
        self.ticks_since_switch
    }

    /// The queue of rewards not yet credited, oldest first.
    pub closed spec fn pending(&self) -> Seq<Pending> {
        self.pending@
    }

    pub closed spec fn bandit_state(&self) -> LinUcb {
        self.bandit
    }

    /// The page offsets remembered for a file.
    pub closed spec fn file_history(&self, key: FileKey) -> Seq<u64> {
        self.prefetch.history(key)
    }

    pub closed spec fn wf(&self) -> bool {
        &&& self.bandit.wf()
        &&& self.bandit.arms() == NUM_ARMS
        &&& self.prefetch.wf()
        &&& self.cfg.wf()
        &&& pending_ok(self.pending@)
    }

    pub fn new() -> (r: Learned)
        ensures
            r.wf(),
            r.cfg().epsilon_bp == 500,
            r.cfg().min_threads_for_numa == 2,
            r.cfg().allow_cpu_weight,
            r.cfg().smooth_alpha_pct == 20,
            forall|i: int| 0 <= i < 5 ==> #[trigger] r.cfg().enabled_arms[i],
            r.pending() == Seq::<Pending>::empty(),
            r.last_arm() is None,
            r.last_switch() is None,
            r.last_switch_score() is None,
            r.ticks_since_switch() == 0,
            r.sm_runq() == 0,
            r.sm_futex() == 0,
            r.bandit_state().update_count() == 0,
            forall|key: FileKey| #[trigger] r.file_history(key) == Seq::<u64>::empty(),
    {
        Self::with_cfg(LearnedCfg::default())
    }

    /// A fresh policy: a new bandit over the five arms, nothing pending,
    /// nothing smoothed yet.
    pub fn with_cfg(cfg: LearnedCfg) -> (r: Learned)
        requires
            cfg.wf(),
        ensures
            r.wf(),
            r.cfg() == cfg,
            r.pending() == Seq::<Pending>::empty(),
            r.last_arm() is None,
            r.last_switch() is None,
            r.last_switch_score() is None,
            r.ticks_since_switch() == 0,
            r.sm_runq() == 0,
            r.sm_futex() == 0,
            r.bandit_state().update_count() == 0,
            forall|key: FileKey| #[trigger] r.file_history(key) == Seq::<u64>::empty(),
    {
        let bandit = LinUcb::new(NUM_ARMS, UCB_ALPHA_MILLI);
        let prefetch = PrefetchModel::new();
        Learned {
            prefetch,
            bandit,
            last_arm: None,
            sm_runq: 0,
            sm_futex: 0,
            cfg,
            last_switch: None,
            last_switch_score: None,
            ticks_since_switch: 0,
            pending: Vec::new(),
        }
    }

    pub fn set_allow_cpu_weight(&mut self, allow: bool)
        requires
            old(self).wf(),
        ensures
            final(self).wf(),
            final(self).cfg() == (LearnedCfg { allow_cpu_weight: allow, ..old(self).cfg() }),
            final(self).pending() == old(self).pending(),
            final(self).last_arm() == old(self).last_arm(),
            final(self).last_switch() == old(self).last_switch(),
            final(self).sm_runq() == old(self).sm_runq(),
            final(self).sm_futex() == old(self).sm_futex(),
    {
        self.cfg.allow_cpu_weight = allow;
    }

    /// The rewards not yet credited, oldest first.
    pub fn pending_queue(&self) -> (r: &Vec<Pending>)
        ensures
            r@ == self.pending(),
    {
        &self.pending
    }

    /// The bandit, for evaluating its upper confidence bounds.
    pub fn bandit(&self) -> (r: &LinUcb)
        requires
            self.wf(),
        ensures
            *r == self.bandit_state(),
            r.arms() == NUM_ARMS,
    {
        &self.bandit
    }

    pub fn name(&self) -> (r: &'static str)
        ensures
            r@ == "learned"@,
    {
        "learned"
    }

    /// First half of a tick: smooths the delays and brings every pending
    /// reward one tick closer. When the idle guard fires, returns `None`,
    /// credits nothing and leaves the bandit as it is; otherwise credits every
    /// pending reward that is due (in queue order) and returns the allowed
    /// arms, the features and the current score.
    pub fn tick(&mut self, snap: &Snapshot, now_ms: u64) -> (r: Option<ArmRequest>)
        requires
            old(self).wf(),
        ensures
            final(self).wf(),
            final(self).sm_runq() == smoothed(old(self).sm_runq(), snap.runq_ewma_ns_mean, old(self).cfg().smooth_alpha_pct),
            final(self).sm_futex() == smoothed(old(self).sm_futex(), snap.futex_ewma_ns_mean, old(self).cfg().smooth_alpha_pct),
            final(self).cfg() == old(self).cfg(),
            final(self).last_arm() == old(self).last_arm(),
            final(self).last_switch() == old(self).last_switch(),
            final(self).last_switch_score() == old(self).last_switch_score(),
            final(self).ticks_since_switch() == old(self).ticks_since_switch(),
            forall|key: FileKey| #[trigger] final(self).file_history(key) == old(self).file_history(key),
            idle_guard(*snap, final(self).sm_runq(), final(self).sm_futex()) ==> {
                &&& r is None
                &&& final(self).pending() == lowered(old(self).pending())
                &&& final(self).bandit_state() == old(self).bandit_state()
            },
            !idle_guard(*snap, final(self).sm_runq(), final(self).sm_futex()) ==> {
                let score = score_of(*snap, final(self).sm_runq(), final(self).sm_futex());
                &&& r is Some
                &&& final(self).pending() == remaining(old(self).pending())
                &&& (old(self).bandit_state().update_count() + credited(old(self).pending()).len() < u64::MAX
                    ==> applied(
                    old(self).bandit_state(),
                    final(self).bandit_state(),
                    observations(credited(old(self).pending()), score),
                ))
                &&& r->0.allowed@ == allowed_arms(
                    old(self).cfg(),
                    *snap,
                    dwell_active(old(self).last_switch(), now_ms),
                )
                &&& r->0.x == features_of(*snap, final(self).sm_runq(), final(self).sm_futex())
                &&& features_in_range(r->0.x)
                &&& r->0.score == score
            },
    {
        let alpha = self.cfg.smooth_alpha_pct;
        self.sm_runq = smooth(self.sm_runq, snap.runq_ewma_ns_mean, alpha);
        self.sm_futex = smooth(self.sm_futex, snap.futex_ewma_ns_mean, alpha);
        let cs = psi_some10(&snap.psi);
        let cf = psi_full10(&snap.psi);
        let ms = psi_some10(&snap.psi_mem);
        let mf = psi_full10(&snap.psi_mem);
        if cs < 20 && cf < 5 && ms < 20 && mf < 5 && (self.sm_runq as u128 + self.sm_futex as u128) < 200_000 {
            let lower = lowered_queue(&self.pending);
            proof {
                lemma_lowered_ok(self.pending@);
            }
            self.pending = lower;
            return None;
        }
        let current = score(snap, self.sm_runq, self.sm_futex);
        let ghost s1 = *self;
        let ghost b0 = self.bandit;
        let ghost q = self.pending@;
        let mut rest: Vec<Pending> = Vec::new();
        let mut i: usize = 0;
        while i < self.pending.len()
            invariant
                q == self.pending@,
                pending_ok(q),
                self.sm_runq == s1.sm_runq,
                self.sm_futex == s1.sm_futex,
                self.cfg == s1.cfg,
                self.last_arm == s1.last_arm,
                self.last_switch == s1.last_switch,
                self.last_switch_score == s1.last_switch_score,
                self.ticks_since_switch == s1.ticks_since_switch,
                self.prefetch == s1.prefetch,
                self.bandit.wf(),
                self.bandit.arms() == NUM_ARMS,
                b0.wf(),
                i <= q.len(),
                rest@ == remaining(q.subrange(0, i as int)),
                b0.update_count() + credited(q.subrange(0, i as int)).len() < u64::MAX ==> {
                    &&& applied(b0, self.bandit, observations(credited(q.subrange(0, i as int)), current))
                    &&& self.bandit.update_count() == b0.update_count() + credited(q.subrange(0, i as int)).len()
                },
                credited(q.subrange(0, i as int)).len() <= i,
            decreases q.len() - i,
        {
            let p = self.pending[i];
            let ghost pre = q.subrange(0, i as int);
            let ghost post = q.subrange(0, i as int + 1);
            assert(post.drop_last() =~= pre);
            assert(post.last() == p);
            if p.due <= 1 {
                let rw = reward(p.baseline, current);
                let ghost mid = self.bandit;
                self.bandit.update(p.arm, &p.x, rw);
                proof {
                    assert(credited(post) == credited(pre) + seq![p]);
                    let ob = observations(credited(post), current);
                    assert(ob.drop_last() =~= observations(credited(pre), current));
                    assert(ob.last() == (p.arm, p.x, rw));
                    if b0.update_count() + credited(post).len() < u64::MAX {
                        assert(self.bandit.updated_from(mid, p.arm as int, p.x, rw));
                        assert(applied(b0, mid, ob.drop_last()));
                        assert(self.bandit.updated_from(mid, ob.last().0 as int, ob.last().1, ob.last().2));
                        assert(applied(b0, self.bandit, ob));
                    }
                }
            } else {
                rest.push(Pending { due: p.due - 1, ..p });
                proof {
                    assert(credited(post) == credited(pre));
                }
            }
            i += 1;
        }
        assert(q.subrange(0, q.len() as int) =~= q);
        proof {
            lemma_remaining_ok(q);
        }
        self.pending = rest;
        let lw = match self.last_switch {
            Some(sw) => now_ms < sw || now_ms - sw < MIN_DWELL_MS,
            None => false,
        };
        let allowed = allowed(&self.cfg, snap, lw);
        let x = features(snap, self.sm_runq, self.sm_futex);
        Some(ArmRequest { allowed, x, score: current })
    }

    /// Second half of a tick: picks the arm (ε-greedy over `draw`, else
    /// `bandit_pick`), queues its reward when it is not the no-op, records a
    /// switch to a new NUMA arm, and returns the arm's actions.
    pub fn decide(&mut self, snap: &Snapshot, now_ms: u64, req: &ArmRequest, draw: u32, bandit_pick: usize) -> (r: Vec<Action>)
        requires
            old(self).wf(),
            req.allowed@.len() > 0,
            forall|i: int| 0 <= i < req.allowed@.len() ==> #[trigger] req.allowed@[i] < NUM_ARMS,
            req.allowed@.contains(bandit_pick),
            features_in_range(req.x),
        ensures
            ({
                let arm = chosen_arm(req.allowed@, old(self).cfg().epsilon_bp, draw, bandit_pick);
                &&& req.allowed@.contains(arm)
                &&& final(self).wf()
                &&& final(self).last_arm() == Some(arm)
                &&& final(self).pending() == old(self).pending() + if arm != 0 {
                    seq![Pending { arm, x: req.x, due: EFFECT_DELAY_TICKS, baseline: req.score }]
                } else {
                    Seq::empty()
                }
                &&& if (arm == 3 || arm == 4) && old(self).last_arm() != Some(arm) {
                    &&& final(self).last_switch() == Some(now_ms)
                    &&& final(self).last_switch_score() == Some(req.score)
                    &&& final(self).ticks_since_switch() == 0
                } else {
                    &&& final(self).last_switch() == old(self).last_switch()
                    &&& final(self).last_switch_score() == old(self).last_switch_score()
                    &&& final(self).ticks_since_switch() == if old(self).ticks_since_switch() == u32::MAX {
                        u32::MAX
                    } else {
                        (old(self).ticks_since_switch() + 1) as u32
                    }
                }
                &&& r@ == match arm_action(arm, *snap) {
                    Some(a) => seq![a],
                    None => Seq::empty(),
                }
            }),
            final(self).cfg() == old(self).cfg(),
            final(self).sm_runq() == old(self).sm_runq(),
            final(self).sm_futex() == old(self).sm_futex(),
            final(self).bandit_state() == old(self).bandit_state(),
            forall|key: FileKey| #[trigger] final(self).file_history(key) == old(self).file_history(key),
    {
        let arm = choose_arm(&req.allowed, self.cfg.epsilon_bp, draw, bandit_pick);
        proof {
            if self.cfg.epsilon_bp > 0 && draw % 10000 < self.cfg.epsilon_bp {
                let k = (draw as int) % req.allowed@.len() as int;
                assert(req.allowed@[k] == arm);
            }
        }
        let prev = self.last_arm;
        self.last_arm = Some(arm);
        if arm != 0 {
            self.pending.push(Pending { arm, x: req.x, due: EFFECT_DELAY_TICKS, baseline: req.score });
        }
        let switched = (arm == 3 || arm == 4) && match prev {
            Some(a) => a != arm,
            None => true,
        };
        if switched {
            self.last_switch = Some(now_ms);
            self.last_switch_score = Some(req.score);
            self.ticks_since_switch = 0;
        } else {
            self.ticks_since_switch = if self.ticks_since_switch == u32::MAX {
                u32::MAX
            } else {
                self.ticks_since_switch + 1
            };
        }
        proof {
            let q = self.pending@;
            assert forall|i: int| 0 <= i < q.len() implies #[trigger] q[i].arm < NUM_ARMS && features_in_range(q[i].x)
                && q[i].due <= EFFECT_DELAY_TICKS by {
                if i < old(self).pending@.len() {
                    assert(q[i] == old(self).pending@[i]);
                    assert(pending_ok(old(self).pending@));
                    let o = old(self).pending@[i];
                    assert(o.arm < NUM_ARMS && features_in_range(o.x) && o.due <= EFFECT_DELAY_TICKS);
                } else {
                    let k = choose|k: int| 0 <= k < req.allowed@.len() && req.allowed@[k] == arm;
                    assert(req.allowed@[k] < NUM_ARMS);
                    assert(q[i] == Pending { arm, x: req.x, due: EFFECT_DELAY_TICKS, baseline: req.score });
                    assert(EFFECT_DELAY_TICKS == 4);
                    assert(q[i].due == 4);
                }
            }
        }
        pick_actions_for_arm(arm, snap)
    }

    /// Feeds an event to the stride detector: a page fault updates its
    /// file's history and yields the prefetch plan of the new history, if any;
    /// other events are ignored.
    pub fn on_event(&mut self, evt: &Event) -> (r: Option<Action>)
        requires
            old(self).wf(),
        ensures
            final(self).wf(),
            final(self).cfg() == old(self).cfg(),
            final(self).pending() == old(self).pending(),
            final(self).last_arm() == old(self).last_arm(),
            final(self).sm_runq() == old(self).sm_runq(),
            final(self).sm_futex() == old(self).sm_futex(),
            final(self).bandit_state() == old(self).bandit_state(),
            match *evt {
                Event::PrefetchFault { tgid, dev, ino, pgoff, ts_ns } => {
                    &&& final(self).file_history((tgid, dev, ino)) == push_bounded(
                        old(self).file_history((tgid, dev, ino)),
                        pgoff,
                    )
                    &&& forall|k: FileKey|
                        k != (tgid, dev, ino) ==> #[trigger] final(self).file_history(k) == old(self).file_history(k)
                    &&& match r {
                        None => plan_matches(final(self).file_history((tgid, dev, ino)), (tgid, dev, ino), pgoff, None),
                        Some(Action::Prefetch(a)) => plan_matches(
                            final(self).file_history((tgid, dev, ino)),
                            (tgid, dev, ino),
                            pgoff,
                            Some(a),
                        ),
                        Some(_) => false,
                    }
                },
                Event::FutexSpike { .. } => {
                    &&& r is None
                    &&& forall|k: FileKey| #[trigger] final(self).file_history(k) == old(self).file_history(k)
                },
            },
    {
        match evt {
            Event::PrefetchFault { tgid, dev, ino, pgoff, ts_ns: _ } => {
                match self.prefetch.on_fault(*tgid, *dev, *ino, *pgoff) {
                    Some(a) => Some(Action::Prefetch(a)),
                    None => None,
                }
            },
            Event::FutexSpike { .. } => None,
        }
    }
}

fn lowered_queue(q: &Vec<Pending>) -> (r: Vec<Pending>)
    ensures
        r@ == lowered(q@),
{
    let mut r: Vec<Pending> = Vec::new();
    let mut i: usize = 0;
    while i < q.len()
        invariant
            i <= q@.len(),
            r@ == lowered(q@.take(i as int)),
        decreases q@.len() - i,
    {
        let p = q[i];
        r.push(Pending { due: if p.due > 0 { p.due - 1 } else { 0 }, ..p });
        i += 1;
        assert(r@ =~= lowered(q@.take(i as int)));
    }
    assert(q@.take(q@.len() as int) =~= q@);
    r
}

proof fn lemma_lowered_ok(q: Seq<Pending>)
    requires
        pending_ok(q),
    ensures
        pending_ok(lowered(q)),
{
    assert forall|i: int| 0 <= i < lowered(q).len() implies #[trigger] lowered(q)[i].arm < NUM_ARMS && features_in_range(lowered(q)[i].x)
        && lowered(q)[i].due <= EFFECT_DELAY_TICKS by {
        assert(q[i].arm < NUM_ARMS && features_in_range(q[i].x) && q[i].due <= EFFECT_DELAY_TICKS);
    }
}

proof fn lemma_remaining_ok(q: Seq<Pending>)
    requires
        pending_ok(q),
    ensures
        pending_ok(remaining(q)),
    decreases q.len(),
{
    if q.len() > 0 {
        let d = q.drop_last();
        assert forall|i: int| 0 <= i < d.len() implies #[trigger] d[i].arm < NUM_ARMS && features_in_range(d[i].x)
            && d[i].due <= EFFECT_DELAY_TICKS by {
            assert(d[i] == q[i]);
        }
        lemma_remaining_ok(d);
        let r = remaining(d);
        let t = if q.last().due <= 1 {
            Seq::<Pending>::empty()
        } else {
            seq![Pending { due: (q.last().due - 1) as u32, ..q.last() }]
        };
        assert(remaining(q) == r + t);
        assert forall|i: int| 0 <= i < (r + t).len() implies #[trigger] (r + t)[i].arm < NUM_ARMS
            && features_in_range((r + t)[i].x) && (r + t)[i].due <= EFFECT_DELAY_TICKS by {
            if i < r.len() {
                assert((r + t)[i] == r[i]);
                let o = r[i];
                assert(o.arm < NUM_ARMS && features_in_range(o.x) && o.due <= EFFECT_DELAY_TICKS);
            } else {
                assert((r + t)[i] == t[i - r.len()]);
                assert(q.last() == q[q.len() - 1]);
                let l = q[q.len() - 1];
                assert(l.arm < NUM_ARMS && features_in_range(l.x) && l.due <= EFFECT_DELAY_TICKS);
            }
        }
    }
}

/// Every entry of `q` is due in `lo..=hi` ticks.
pub open spec fn dues_in(q: Seq<Pending>, lo: u32, hi: u32) -> bool {
    forall|i: int| 0 <= i < q.len() ==> lo <= #[trigger] q[i].due <= hi
}

proof fn lemma_split(a: Seq<Pending>, b: Seq<Pending>)
    ensures
        credited(a + b) == credited(a) + credited(b),
        remaining(a + b) == remaining(a) + remaining(b),
    decreases b.len(),
{
    if b.len() == 0 {
        assert(a + b =~= a);
        assert(credited(a) + credited(b) =~= credited(a));
        assert(remaining(a) + remaining(b) =~= remaining(a));
    } else {
        let b0 = b.drop_last();
        assert((a + b).drop_last() =~= a + b0);
        assert((a + b).last() == b.last());
        lemma_split(a, b0);
        let c = if b.last().due <= 1 { seq![b.last()] } else { Seq::<Pending>::empty() };
        assert(credited(a) + credited(b0) + c =~= credited(a) + (credited(b0) + c));
        let r = if b.last().due <= 1 {
            Seq::<Pending>::empty()
        } else {
            seq![Pending { due: (b.last().due - 1) as u32, ..b.last() }]
        };
        assert(remaining(a) + remaining(b0) + r =~= remaining(a) + (remaining(b0) + r));
    }
}

/// What a tick does to the queue: a tick the idle guard lets through
/// credits the due entries and lowers the rest; an idle tick only lowers.
pub open spec fn advance(q: Seq<Pending>, busy: bool) -> Seq<Pending> {
    if busy { remaining(q) } else { lowered(q) }
}

/// The entries a tick credits.
pub open spec fn credits(q: Seq<Pending>, busy: bool) -> Seq<Pending> {
    if busy { credited(q) } else { Seq::empty() }
}

proof fn lemma_split_tick(a: Seq<Pending>, b: Seq<Pending>, busy: bool)
    ensures
        advance(a + b, busy) == advance(a, busy) + advance(b, busy),
        credits(a + b, busy) == credits(a, busy) + credits(b, busy),
        credited(a + b) == credited(a) + credited(b),
{
    lemma_split(a, b);
    assert(lowered(a + b) =~= lowered(a) + lowered(b));
    assert(Seq::<Pending>::empty() + Seq::<Pending>::empty() =~= Seq::<Pending>::empty());
}

/// An entry due in `d ≥ 2` ticks is not credited by the next tick, which
/// leaves it due in `d − 1`.
proof fn lemma_young(n: Seq<Pending>, d: u32, busy: bool)
    requires
        n.len() <= 1,
        dues_in(n, d, d),
        d >= 2,
    ensures
        credits(n, busy) == Seq::<Pending>::empty(),
        credited(n) == Seq::<Pending>::empty(),
        advance(n, busy).len() == n.len(),
        dues_in(advance(n, busy), (d - 1) as u32, (d - 1) as u32),
        n.len() == 1 ==> advance(n, busy) == seq![Pending { due: (d - 1) as u32, ..n[0] }],
{
    let emp = Seq::<Pending>::empty();
    assert(credited(emp) == emp);
    assert(remaining(emp) == emp);
    if n.len() == 1 {
        assert(n.drop_last() =~= emp);
        assert(n.last() == n[0]);
        assert(n[0].due == d);
        assert(credited(n) =~= emp);
        assert(remaining(n) =~= seq![Pending { due: (d - 1) as u32, ..n[0] }]);
        assert(lowered(n) =~= seq![Pending { due: (d - 1) as u32, ..n[0] }]);
    } else {
        assert(n =~= emp);
        assert(lowered(n) =~= emp);
    }
}

/// A reward queued at tick `T` is credited exactly once, at `T + 4` when
/// the idle guard lets that tick through: the ticks between, idle (`b_k`
/// false) or not, credit only entries queued before it (the ones `q` alone
/// would have given), and tick `T + 4` credits it once after those, whatever
/// was queued meanwhile (`n_k`, one entry at most, on ticks that were let
/// through).
pub proof fn lemma_reward_credited_after_delay(
    q: Seq<Pending>,
    e: Pending,
    b1: bool,
    b2: bool,
    b3: bool,
    n1: Seq<Pending>,
    n2: Seq<Pending>,
    n3: Seq<Pending>,
)
    requires
        e.due == EFFECT_DELAY_TICKS,
        n1.len() <= 1 && dues_in(n1, 4, 4) && (!b1 ==> n1.len() == 0),
        n2.len() <= 1 && dues_in(n2, 4, 4) && (!b2 ==> n2.len() == 0),
        n3.len() <= 1 && dues_in(n3, 4, 4) && (!b3 ==> n3.len() == 0),
    ensures
        ({
            let q1 = q.push(e);
            let q2 = advance(q1, b1) + n1;
            let q3 = advance(q2, b2) + n2;
            let q4 = advance(q3, b3) + n3;
            let a2 = advance(q, b1);
            let a3 = advance(a2, b2);
            let a4 = advance(a3, b3);
            &&& credits(q1, b1) == credits(q, b1)
            &&& credits(q2, b2) == credits(a2, b2)
            &&& credits(q3, b3) == credits(a3, b3)
            &&& credited(q4) == credited(a4) + seq![Pending { due: 1, ..e }]
        }),
{
    let e3 = Pending { due: 3, ..e };
    let e2 = Pending { due: 2, ..e };
    let e1 = Pending { due: 1, ..e };
    let emp = Seq::<Pending>::empty();
    assert(credited(emp) == emp);
    lemma_young(seq![e], 4, b1);
    assert(seq![e][0] == e);
    lemma_young(seq![e3], 3, b2);
    assert(seq![e3][0] == e3);
    lemma_young(seq![e2], 2, b3);
    assert(seq![e2][0] == e2);
    let s1 = seq![e1];
    assert(s1.drop_last() =~= emp);
    assert(s1.last() == e1);
    assert(credited(s1) =~= seq![e1]);

    let q1 = q.push(e);
    assert(q1 == q + seq![e]);
    lemma_split_tick(q, seq![e], b1);
    let a2 = advance(q, b1);
    let q2 = advance(q1, b1) + n1;
    assert(q2 == a2 + seq![e3] + n1);
    lemma_split_tick(a2 + seq![e3], n1, b2);
    lemma_split_tick(a2, seq![e3], b2);
    lemma_young(n1, 4, b2);
    let m1 = advance(n1, b2);
    let a3 = advance(a2, b2);
    let q3 = advance(q2, b2) + n2;
    assert(q3 == a3 + seq![e2] + m1 + n2);
    lemma_split_tick(a3 + seq![e2] + m1, n2, b3);
    lemma_split_tick(a3 + seq![e2], m1, b3);
    lemma_split_tick(a3, seq![e2], b3);
    lemma_young(m1, 3, b3);
    lemma_young(n2, 4, b3);
    let m2 = advance(m1, b3);
    let o1 = advance(n2, b3);
    let a4 = advance(a3, b3);
    let q4 = advance(q3, b3) + n3;
    assert(q4 == a4 + s1 + m2 + o1 + n3);
    lemma_split_tick(a4 + s1 + m2 + o1, n3, true);
    lemma_split_tick(a4 + s1 + m2, o1, true);
    lemma_split_tick(a4 + s1, m2, true);
    lemma_split_tick(a4, s1, true);
    lemma_young(m2, 2, true);
    lemma_young(o1, 3, true);
    lemma_young(n3, 4, true);
    assert(credited(q4) =~= credited(a4) + seq![e1]);
    assert(credits(q1, b1) =~= credits(q, b1));
    assert(credits(q2, b2) =~= credits(a2, b2));
    assert(credits(q3, b3) =~= credits(a3, b3));
}

} // verus!
