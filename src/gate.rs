//! The action gate: suppression while the target idles, and a per-key
//! cooldown so that an identical action is not applied again too soon.
use vstd::prelude::*;
use crate::actions::{Action, PrefetchAction, PrefetchBackend};
use crate::metrics::Snapshot;
use crate::text::{decimal, push_decimal, push_signed_decimal, signed_decimal};

verus! {

pub open spec fn list_items(s: Seq<usize>, n: int) -> Seq<char>
    decreases n,
{
    if n <= 0 {
        Seq::empty()
    } else if n == 1 {
        decimal(s[0] as nat)
    } else {
        list_items(s, n - 1) + ", "@ + decimal(s[n - 1] as nat)
    }
}

pub open spec fn range_item(r: (u64, u64)) -> Seq<char> {
    "("@ + decimal(r.0 as nat) + ", "@ + decimal(r.1 as nat) + ")"@
}

pub open spec fn range_items(s: Seq<(u64, u64)>, n: int) -> Seq<char>
    decreases n,
{
    if n <= 0 {
        Seq::empty()
    } else if n == 1 {
        range_item(s[0])
    } else {
        range_items(s, n - 1) + ", "@ + range_item(s[n - 1])
    }
}

pub open spec fn backend_text(b: PrefetchBackend) -> Seq<char> {
    match b {
        PrefetchBackend::Fadvise => "Fadvise"@,
        PrefetchBackend::Readahead => "Readahead"@,
    }
}

pub open spec fn prefetch_text(p: PrefetchAction) -> Seq<char> {
    "PrefetchAction { tgid: "@ + decimal(p.tgid as nat) + ", dev: "@ + decimal(p.dev as nat) + ", ino: "@
        + decimal(p.ino as nat) + ", ranges: ["@ + range_items(p.ranges@, p.ranges@.len() as int) + "], backend: "@
        + backend_text(p.backend) + " }"@
}

/// The canonical key of an action: identical actions, and only those, share it.
pub open spec fn key_text(a: Action) -> Seq<char> {
    match a {
        Action::SetCpuset { cgroup, cpus } => "cpuset:"@ + cgroup@ + ":["@ + list_items(cpus@, cpus@.len() as int)
            + "]"@,
        Action::SetCpuWeight { weight } => "cpuweight:"@ + decimal(weight as nat),
        Action::SetNice { prio } => "nice:"@ + signed_decimal(prio as int),
        Action::SetIoPriority { class, prio } => "ioprio:"@ + signed_decimal(class as int) + ":"@ + signed_decimal(
            prio as int,
        ),
        Action::SetSchedBatch { enable } => "sched_batch:"@ + if enable {
            "true"@
        } else {
            "false"@
        },
        Action::CompactWithinNUMA { node } => "plan_compact:"@ + match node {
            Some(n) => "Some("@ + decimal(n as nat) + ")"@,
            None => "None"@,
        },
        Action::SpreadAcrossNUMA { width } => "plan_spread:"@ + decimal(width as nat),
        Action::Prefetch(p) => "prefetch_action:"@ + prefetch_text(p),
    }
}

fn push_usize_list(out: &mut String, s: &Vec<usize>)
    ensures
        final(out)@ == old(out)@ + list_items(s@, s@.len() as int),
{
    let ghost start = out@;
    let mut i: usize = 0;
    while i < s.len()
        invariant
            i <= s@.len(),
            out@ == start + list_items(s@, i as int),
        decreases s@.len() - i,
    {
        proof {
            reveal_strlit(", ");
        }
        if i > 0 {
            out.append(", ");
        }
        push_decimal(out, s[i] as u64);
        i += 1;
        assert(out@ =~= start + list_items(s@, i as int));
    }
}

fn push_range_list(out: &mut String, s: &Vec<(u64, u64)>)
    ensures
        final(out)@ == old(out)@ + range_items(s@, s@.len() as int),
{
    let ghost start = out@;
    let mut i: usize = 0;
    while i < s.len()
        invariant
            i <= s@.len(),
            out@ == start + range_items(s@, i as int),
        decreases s@.len() - i,
    {
        proof {
            reveal_strlit(", ");
            reveal_strlit("(");
            reveal_strlit(")");
        }
        if i > 0 {
            out.append(", ");
        }
        out.append("(");
        push_decimal(out, s[i].0);
        out.append(", ");
        push_decimal(out, s[i].1);
        out.append(")");
        i += 1;
        assert(out@ =~= start + range_items(s@, i as int));
    }
}

/// The canonical key of an action, as text.
pub fn stable_key(a: &Action) -> (r: String)
    ensures
        r@ == key_text(*a),
{
    let mut out = String::new();
    match a {
        Action::SetCpuset { cgroup, cpus } => {
            out.append("cpuset:");
            out.append(cgroup.as_str());
            out.append(":[");
            push_usize_list(&mut out, cpus);
            out.append("]");
        },
        Action::SetCpuWeight { weight } => {
            out.append("cpuweight:");
            push_decimal(&mut out, *weight as u64);
        },
        Action::SetNice { prio } => {
            out.append("nice:");
            push_signed_decimal(&mut out, *prio as i64);
        },
        Action::SetIoPriority { class, prio } => {
            out.append("ioprio:");
            push_signed_decimal(&mut out, *class as i64);
            out.append(":");
            push_signed_decimal(&mut out, *prio as i64);
        },
        Action::SetSchedBatch { enable } => {
            out.append("sched_batch:");
            if *enable {
                out.append("true");
            } else {
                out.append("false");
            }
        },
        Action::CompactWithinNUMA { node } => {
            out.append("plan_compact:");
            match node {
                Some(n) => {
                    out.append("Some(");
                    push_decimal(&mut out, *n as u64);
                    out.append(")");
                },
                None => {
                    out.append("None");
                },
            }
        },
        Action::SpreadAcrossNUMA { width } => {
            out.append("plan_spread:");
            push_decimal(&mut out, *width as u64);
        },
        Action::Prefetch(p) => {
            out.append("prefetch_action:");
            out.append("PrefetchAction { tgid: ");
            push_decimal(&mut out, p.tgid as u64);
            out.append(", dev: ");
            push_decimal(&mut out, p.dev);
            out.append(", ino: ");
            push_decimal(&mut out, p.ino);
            out.append(", ranges: [");
            push_range_list(&mut out, &p.ranges);
            out.append("], backend: ");
            match p.backend {
                PrefetchBackend::Fadvise => {
                    out.append("Fadvise");
                },
                PrefetchBackend::Readahead => {
                    out.append("Readahead");
                },
            }
            out.append(" }");
        },
    }
    assert(out@ =~= key_text(*a));
    out
}

/// Why the last `filter` call dropped what it dropped.
#[derive(Debug, Clone, Copy, PartialEq, Eq, Structural)]
pub enum GateReason {
    Passed,
    Cooldown,
    PsiIdle,
    Idle,
}

/// Milliseconds from `ts` to `now`, 0 when the clock reads earlier than `ts`.
pub open spec fn elapsed(now: u64, ts: u64) -> int {
    if now >= ts { now - ts } else { 0 }
}

/// Whether an action with key `k` may pass at `now`, given the times `m` at
/// which keys were last let through.
pub open spec fn admits(m: Map<Seq<char>, u64>, now: u64, cooldown: u64, k: Seq<char>) -> bool {
    !m.contains_key(k) || elapsed(now, m[k]) >= cooldown
}

/// Passing `acts` through the cooldown in order, starting from `m`: the
/// updated times and the actions let through.
pub open spec fn cooldown_run(m: Map<Seq<char>, u64>, now: u64, cooldown: u64, acts: Seq<Action>) -> (Map<Seq<char>, u64>, Seq<Action>)
    decreases acts.len(),
{
    if acts.len() == 0 {
        (m, Seq::empty())
    } else {
        let (m1, o1) = cooldown_run(m, now, cooldown, acts.drop_last());
        let k = key_text(acts.last());
        if admits(m1, now, cooldown, k) {
            (m1.insert(k, now), o1.push(acts.last()))
        } else {
            (m1, o1)
        }
    }
}

/// The 10-second CPU pressure is low: some below 0.5% and full below 0.1%.
pub open spec fn psi_idle(snap: Snapshot) -> bool {
    snap.psi matches Some(p) && p.some_avg10 < 50 && p.full_avg10 < 10
}

/// The target looks idle: low CPU pressure and smoothed delays below
/// `idle_ns_per_thread` per thread.
pub open spec fn idle_like(snap: Snapshot, idle_ns_per_thread: u64) -> bool {
    let threads = if snap.threads >= 1 { snap.threads as int } else { 1 };
    psi_idle(snap) && snap.runq_ewma_ns_mean + snap.futex_ewma_ns_mean < idle_ns_per_thread * threads
}

pub struct ActionGate {
    last: Vec<(String, u64)>,
    cooldown_ms: u64,
    idle_ticks: u32,
    idle_limit: u32,
    idle_ns_per_thread: u64,
    last_reason: GateReason,
}

impl ActionGate {
    /// When each key was last let through.
    pub closed spec fn last_map(&self) -> Map<Seq<char>, u64> {
        Map::new(
            |k: Seq<char>| exists|i: int| 0 <= i < self.last@.len() && self.last@[i].0@ == k,
            |k: Seq<char>|
                {
                    let i = choose|i: int| 0 <= i < self.last@.len() && self.last@[i].0@ == k;
                    self.last@[i].1
                },
        )
    }

    pub closed spec fn wf(&self) -> bool {
        forall|i: int, j: int|
            0 <= i < j < self.last@.len() ==> #[trigger] self.last@[i].0@ != #[trigger] self.last@[j].0@
    }

    pub closed spec fn cooldown(&self) -> u64 {
        self.cooldown_ms
    }

    pub closed spec fn idle_ticks(&self) -> u32 {
        self.idle_ticks
    }

    pub closed spec fn idle_limit(&self) -> u32 {
        self.idle_limit
    }

    pub closed spec fn idle_ns_per_thread(&self) -> u64 {
        self.idle_ns_per_thread
    }

    pub closed spec fn last_reason(&self) -> GateReason {
        self.last_reason
    }

    /// A gate with the given cooldown, idle-tick limit and per-thread idle
    /// threshold (nanoseconds of smoothed delay).
    pub fn new(cooldown_ms: u64, idle_limit: u32, idle_ns_per_thread: u64) -> (r: ActionGate)
        ensures
            r.wf(),
            r.last_map() == Map::<Seq<char>, u64>::empty(),
            r.cooldown() == cooldown_ms,
            r.idle_limit() == idle_limit,
            r.idle_ns_per_thread() == idle_ns_per_thread,
            r.idle_ticks() == 0,
            r.last_reason() == GateReason::Passed,
    {
        let r = ActionGate {
            last: Vec::new(),
            cooldown_ms,
            idle_ticks: 0,
            idle_limit,
            idle_ns_per_thread,
            last_reason: GateReason::Passed,
        };
        assert(r.last_map() =~= Map::<Seq<char>, u64>::empty());
        r
    }

    fn lookup(&self, key: &String) -> (r: Option<usize>)
        requires
            self.wf(),
        ensures
            match r {
                Some(i) => i < self.last@.len() && self.last@[i as int].0@ == key@ && self.last_map().contains_key(key@)
                    && self.last_map()[key@] == self.last@[i as int].1,
                None => !self.last_map().contains_key(key@),
            },
    {
        let mut i: usize = 0;
        while i < self.last.len()
            invariant
                self.wf(),
                i <= self.last@.len(),
                forall|j: int| 0 <= j < i ==> #[trigger] self.last@[j].0@ != key@,
            decreases self.last@.len() - i,
        {
            if self.last[i].0 == *key {
                proof {
                    assert(self.last_map().contains_key(key@));
                    let k = choose|k: int| 0 <= k < self.last@.len() && self.last@[k].0@ == key@;
                    assert(k == i);
                }
                return Some(i);
            }
            i += 1;
        }
        None
    }

    fn record(&mut self, key: String, now: u64)
        requires
            old(self).wf(),
        ensures
            final(self).wf(),
            final(self).last_map() == old(self).last_map().insert(key@, now),
            final(self).cooldown() == old(self).cooldown(),
            final(self).idle_ticks() == old(self).idle_ticks(),
            final(self).idle_limit() == old(self).idle_limit(),
            final(self).idle_ns_per_thread() == old(self).idle_ns_per_thread(),
            final(self).last_reason() == old(self).last_reason(),
    {
        let ghost before = self.last@;
        let ghost k = key@;
        match self.lookup(&key) {
            Some(i) => {
                self.last.set(i, (key, now));
                proof {
                    assert forall|a: int, b: int| 0 <= a < b < self.last@.len() implies #[trigger] self.last@[a].0@
                        != #[trigger] self.last@[b].0@ by {
                        if a != i && b != i {
                            assert(self.last@[a] == before[a]);
                            assert(self.last@[b] == before[b]);
                        } else if a == i {
                            assert(self.last@[b] == before[b]);
                            assert(before[a].0@ == k);
                        } else {
                            assert(self.last@[a] == before[a]);
                            assert(before[b].0@ == k);
                        }
                    }
                }
            },
            None => {
                self.last.push((key, now));
                proof {
                    assert forall|a: int, b: int| 0 <= a < b < self.last@.len() implies #[trigger] self.last@[a].0@
                        != #[trigger] self.last@[b].0@ by {
                        assert(self.last@[a] == before[a]);
                        if b < before.len() {
                            assert(self.last@[b] == before[b]);
                        } else {
                            assert(!old(self).last_map().contains_key(k));
                            assert(before[a].0@ != k);
                        }
                    }
                }
            },
        }
        proof {
            let m = self.last_map();
            let m0 = old(self).last_map().insert(k, now);
            let n = self.last@.len();
            assert forall|q: Seq<char>| m.contains_key(q) <==> m0.contains_key(q) by {
                if q != k {
                    if m.contains_key(q) {
                        let j = choose|j: int| 0 <= j < n && self.last@[j].0@ == q;
                        assert(j < before.len() && before[j] == self.last@[j]);
                    }
                    if old(self).last_map().contains_key(q) {
                        let j = choose|j: int| 0 <= j < before.len() && before[j].0@ == q;
                        assert(self.last@[j] == before[j]);
                    }
                } else {
                    let j = if n == before.len() { choose|j: int| 0 <= j < before.len() && before[j].0@ == k } else { before.len() as int };
                    assert(self.last@[j].0@ == k);
                }
            }
            assert forall|q: Seq<char>| m.contains_key(q) implies m[q] == m0[q] by {
                let j = choose|j: int| 0 <= j < n && self.last@[j].0@ == q;
                if q == k {
                    assert(self.last@[j].1 == now);
                } else {
                    assert(j < before.len() && before[j] == self.last@[j]);
                    let j0 = choose|j0: int| 0 <= j0 < before.len() && before[j0].0@ == q;
                    assert(j0 == j);
                }
            }
            assert(m =~= m0);
        }
    }

    /// Filters one tick's actions. When the target has looked idle for
    /// `idle_limit` consecutive ticks, nothing passes; otherwise each action
    /// passes unless an action with the same key passed less than the
    /// cooldown ago, and each one that passes is stamped with `now_ms`.
    pub fn filter(&mut self, snap: &Snapshot, now_ms: u64, actions: Vec<Action>) -> (r: Vec<Action>)
        requires
            old(self).wf(),
        ensures
            final(self).wf(),
            final(self).cooldown() == old(self).cooldown(),
            final(self).idle_limit() == old(self).idle_limit(),
            final(self).idle_ns_per_thread() == old(self).idle_ns_per_thread(),
            final(self).idle_ticks() == if idle_like(*snap, old(self).idle_ns_per_thread()) {
                if old(self).idle_ticks() == u32::MAX { u32::MAX } else { (old(self).idle_ticks() + 1) as u32 }
            } else {
                0
            },
            final(self).idle_ticks() >= old(self).idle_limit() ==> {
                &&& r@ == Seq::<Action>::empty()
                &&& final(self).last_map() == old(self).last_map()
                &&& final(self).last_reason() == if psi_idle(*snap) { GateReason::PsiIdle } else { GateReason::Idle }
            },
            final(self).idle_ticks() < old(self).idle_limit() ==> {
                let run = cooldown_run(old(self).last_map(), now_ms, old(self).cooldown(), actions@);
                &&& final(self).last_map() == run.0
                &&& r@ == run.1
                &&& final(self).last_reason() == if r@.len() < actions@.len() {
                    GateReason::Cooldown
                } else {
                    GateReason::Passed
                }
            },
    {
        let p_idle = match &snap.psi {
            Some(p) => p.some_avg10 < 50 && p.full_avg10 < 10,
            None => false,
        };
        let threads: u128 = if snap.threads >= 1 { snap.threads as u128 } else { 1 };
        proof {
            assert(self.idle_ns_per_thread * threads <= 18446744073709551615 * 18446744073709551615) by (nonlinear_arith)
                requires
                    self.idle_ns_per_thread <= 18446744073709551615,
                    threads <= 18446744073709551615,
                    threads >= 0,
            ;
        }
        let load = snap.runq_ewma_ns_mean as u128 + snap.futex_ewma_ns_mean as u128;
        let idle = p_idle && load < (self.idle_ns_per_thread as u128) * threads;
        if idle {
            if self.idle_ticks < u32::MAX {
                self.idle_ticks = self.idle_ticks + 1;
            }
        } else {
            self.idle_ticks = 0;
        }
        if self.idle_ticks >= self.idle_limit {
            self.last_reason = if p_idle { GateReason::PsiIdle } else { GateReason::Idle };
            return Vec::new();
        }
        let ghost m0 = self.last_map();
        let ghost orig = actions@;
        let ghost it = self.idle_ticks;
        let total = actions.len();
        let mut rest = actions;
        let mut out: Vec<Action> = Vec::new();
        let mut taken: usize = 0;
        while rest.len() > 0
            invariant
                self.wf(),
                taken + rest@.len() == orig.len(),
                rest@ == orig.subrange(taken as int, orig.len() as int),
                (self.last_map(), out@) == cooldown_run(m0, now_ms, self.cooldown_ms, orig.take(taken as int)),
                out@.len() <= taken,
                self.cooldown_ms == old(self).cooldown_ms,
                total == orig.len(),
                self.idle_ticks == it,
                self.idle_limit == old(self).idle_limit,
                self.idle_ns_per_thread == old(self).idle_ns_per_thread,
            decreases rest@.len(),
        {
            let a = rest.remove(0);
            let ghost pre = orig.take(taken as int);
            let ghost post = orig.take(taken as int + 1);
            assert(post.drop_last() =~= pre);
            assert(post.last() == a);
            let key = stable_key(&a);
            let pass = match self.lookup(&key) {
                Some(i) => {
                    let ts = self.last[i].1;
                    let el = if now_ms >= ts { now_ms - ts } else { 0 };
                    el >= self.cooldown_ms
                },
                None => true,
            };
            if pass {
                self.record(key, now_ms);
                out.push(a);
            }
            taken += 1;
        }
        assert(orig.take(orig.len() as int) =~= orig);
        self.last_reason = if out.len() < total { GateReason::Cooldown } else { GateReason::Passed };
        out
    }

    /// The reason of the last `filter` call, for logging.
    pub fn reason(&self) -> (r: &'static str)
        ensures
            r@ == match self.last_reason() {
                GateReason::Passed => "ok"@,
                GateReason::Cooldown => "cooldown"@,
                GateReason::PsiIdle => "psi-idle"@,
                GateReason::Idle => "idle"@,
            },
    {
        match self.last_reason {
            GateReason::Passed => "ok",
            GateReason::Cooldown => "cooldown",
            GateReason::PsiIdle => "psi-idle",
            GateReason::Idle => "idle",
        }
    }
}

/// Every action let through is stamped with `now`; every other key keeps its
/// time.
pub proof fn lemma_cooldown_stamps(m: Map<Seq<char>, u64>, now: u64, cooldown: u64, acts: Seq<Action>)
    ensures
        ({
            let (m1, out) = cooldown_run(m, now, cooldown, acts);
            &&& forall|i: int| 0 <= i < out.len() ==> #[trigger] m1.contains_key(key_text(out[i])) && m1[key_text(out[i])] == now
            &&& forall|k: Seq<char>| m1.contains_key(k) ==> (m.contains_key(k) && #[trigger] m1[k] == m[k]) || m1[k] == now
        }),
    decreases acts.len(),
{
    if acts.len() > 0 {
        lemma_cooldown_stamps(m, now, cooldown, acts.drop_last());
        let (m1, o1) = cooldown_run(m, now, cooldown, acts.drop_last());
        let k = key_text(acts.last());
        if admits(m1, now, cooldown, k) {
            let o2 = o1.push(acts.last());
            assert forall|i: int| 0 <= i < o2.len() implies #[trigger] m1.insert(k, now).contains_key(key_text(o2[i]))
                && m1.insert(k, now)[key_text(o2[i])] == now by {
                if i < o1.len() {
                    assert(o2[i] == o1[i]);
                }
            }
        }
    }
}

/// While a key is cooling down (last let through at `t` or later, and
/// `now < t + cooldown`), no action with that key is let through.
pub proof fn lemma_cooldown_blocks(
    m: Map<Seq<char>, u64>,
    now: u64,
    cooldown: u64,
    acts: Seq<Action>,
    k: Seq<char>,
    t: u64,
)
    requires
        m.contains_key(k),
        t <= m[k],
        t <= now,
        now < t + cooldown,
    ensures
        ({
            let (m1, out) = cooldown_run(m, now, cooldown, acts);
            &&& m1.contains_key(k) && m1[k] == m[k]
            &&& forall|i: int| 0 <= i < out.len() ==> key_text(#[trigger] out[i]) != k
        }),
    decreases acts.len(),
{
    if acts.len() > 0 {
        lemma_cooldown_blocks(m, now, cooldown, acts.drop_last(), k, t);
        let (m1, o1) = cooldown_run(m, now, cooldown, acts.drop_last());
        let kl = key_text(acts.last());
        if admits(m1, now, cooldown, kl) {
            let o2 = o1.push(acts.last());
            assert forall|i: int| 0 <= i < o2.len() implies key_text(#[trigger] o2[i]) != k by {
                if i < o1.len() {
                    assert(o2[i] == o1[i]);
                }
            }
        }
    }
}

/// A filter call at `now ≥ t` keeps every key stamped at `t` or later stamped
/// at `t` or later: with a clock that does not go back, a key let through at
/// `t` stays cooling down until `t + cooldown` across any calls in between
/// (see `lemma_cooldown_blocks`).
pub proof fn lemma_stamp_stays_recent(
    m: Map<Seq<char>, u64>,
    now: u64,
    cooldown: u64,
    acts: Seq<Action>,
    k: Seq<char>,
    t: u64,
)
    requires
        m.contains_key(k),
        t <= m[k],
        t <= now,
    ensures
        cooldown_run(m, now, cooldown, acts).0.contains_key(k),
        t <= cooldown_run(m, now, cooldown, acts).0[k],
    decreases acts.len(),
{
    if acts.len() > 0 {
        lemma_stamp_stays_recent(m, now, cooldown, acts.drop_last(), k, t);
    }
}

} // verus!
