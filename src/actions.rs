//! The resource-control actions the agent emits.
use vstd::prelude::*;
use crate::topology::{cpu_list_text, same_values, strictly_increasing, to_cpuset_list};

verus! {

#[derive(Debug, Clone, Copy, PartialEq, Eq, Structural)]
pub enum PrefetchBackend {
    Fadvise,
    Readahead,
}

/// Advise the kernel that the byte ranges `(offset, len)` of the file
/// `(dev, ino)` mapped by `tgid` will be read soon.
#[derive(Debug, Clone)]
pub struct PrefetchAction {
    pub tgid: u32,
    pub dev: u64,
    pub ino: u64,
    pub ranges: Vec<(u64, u64)>,
    pub backend: PrefetchBackend,
}

/// An action. `CompactWithinNUMA` and `SpreadAcrossNUMA` are abstract plans
/// that the planner lowers to `SetCpuset`; all others are concrete. An empty
/// `cgroup` names the target's own cgroup.
#[derive(Debug, Clone)]
pub enum Action {
    Prefetch(PrefetchAction),
    SetCpuset { cgroup: String, cpus: Vec<usize> },
    SetCpuWeight { weight: u32 },
    SetNice { prio: i32 },
    SetIoPriority { class: i32, prio: i32 },
    SetSchedBatch { enable: bool },
    CompactWithinNUMA { node: Option<u32> },
    SpreadAcrossNUMA { width: usize },
}

impl Action {
    pub open spec fn is_numa_plan(self) -> bool {
        self is CompactWithinNUMA || self is SpreadAcrossNUMA
    }
}

/// I/O scheduling classes.
pub const IOPRIO_CLASS_RT: i32 = 1;
pub const IOPRIO_CLASS_BE: i32 = 2;
pub const IOPRIO_CLASS_IDLE: i32 = 3;

/// `x` clamped to `[lo, hi]`.
pub open spec fn clamp_i32(x: i32, lo: i32, hi: i32) -> i32 {
    if x < lo { lo } else if x > hi { hi } else { x }
}

pub open spec fn clamp_u32(x: u32, lo: u32, hi: u32) -> u32 {
    if x < lo { lo } else if x > hi { hi } else { x }
}

/// The 16-bit I/O priority: class (RT, BE or IDLE; anything else is BE) in
/// the upper bits from bit 13, priority clamped to `0..=7` in the lower three.
pub open spec fn ioprio_value(class: i32, prio: i32) -> i32 {
    let c = if class == IOPRIO_CLASS_RT || class == IOPRIO_CLASS_BE || class == IOPRIO_CLASS_IDLE {
        class
    } else {
        IOPRIO_CLASS_BE
    };
    (c * 8192 + clamp_i32(prio, 0, 7)) as i32
}

/// An operation on the system that applies an action. Cgroup operations
/// name the cgroup directory; `cpus` of a cpuset write is the coalesced list.
#[derive(Debug, Clone)]
pub enum Op {
    /// Write `cpus` to `<cgroup>/cpuset.cpus` and the nodes of `cpu_ids` to
    /// `cpuset.mems`; when the write is denied, set the affinity of every
    /// task of the cgroup to `cpu_ids` instead.
    WriteCpuset { cgroup: String, cpus: String, cpu_ids: Vec<usize> },
    /// Write the weight to `<cgroup>/cpu.weight`; a denied write is skipped.
    WriteCpuWeight { cgroup: String, weight: u32 },
    /// Set the nice value of every task of the cgroup.
    SetNice { cgroup: String, prio: i32 },
    /// Set the encoded I/O priority of every task of the cgroup.
    SetIoPriority { cgroup: String, ioprio: i32 },
    /// Set SCHED_BATCH (or SCHED_OTHER) with priority 0 on every task.
    SetSchedBatch { cgroup: String, enable: bool },
    /// Issue the advisories of a prefetch plan.
    Prefetch(PrefetchAction),
}

/// Applies actions to the target's cgroup `cg`; `dry` asks for logging only.
pub struct Applier {
    pub cg: String,
    pub dry: bool,
}

/// What `a` becomes for the default cgroup `cg`: concrete actions become one
/// operation on their cgroup (the default one when empty), with the weight
/// clamped to `1..=10000`, the nice value to `-20..=19` and the I/O priority
/// encoded; NUMA plans become nothing.
pub open spec fn op_for(a: Action, cg: Seq<char>, op: Seq<Op>) -> bool {
    match a {
        Action::SetCpuset { cgroup, cpus } => {
            &&& op.len() == 1
            &&& op[0] matches Op::WriteCpuset { cgroup: g, cpus: text, cpu_ids }
            &&& g@ == (if cgroup@.len() == 0 { cg } else { cgroup@ })
            &&& cpu_ids@ == cpus@
            &&& exists|v: Seq<usize>| strictly_increasing(v) && same_values(v, cpus@) && text@ == cpu_list_text(v)
        },
        Action::SetCpuWeight { weight } => op == seq![Op::WriteCpuWeight { cgroup: op[0]->WriteCpuWeight_cgroup, weight: clamp_u32(weight, 1, 10000) }]
            && op[0]->WriteCpuWeight_cgroup@ == cg,
        Action::SetNice { prio } => op == seq![Op::SetNice { cgroup: op[0]->SetNice_cgroup, prio: clamp_i32(prio, -20i32, 19i32) }]
            && op[0]->SetNice_cgroup@ == cg,
        Action::SetIoPriority { class, prio } => op == seq![Op::SetIoPriority { cgroup: op[0]->SetIoPriority_cgroup, ioprio: ioprio_value(class, prio) }]
            && op[0]->SetIoPriority_cgroup@ == cg,
        Action::SetSchedBatch { enable } => op == seq![Op::SetSchedBatch { cgroup: op[0]->SetSchedBatch_cgroup, enable }]
            && op[0]->SetSchedBatch_cgroup@ == cg,
        Action::CompactWithinNUMA { .. } | Action::SpreadAcrossNUMA { .. } => op.len() == 0,
        Action::Prefetch(p) => op == seq![Op::Prefetch(p)],
    }
}

fn copy_string(s: &String) -> (r: String)
    ensures
        r@ == s@,
{
    String::from_str(s.as_str())
}

fn copy_cpus(v: &Vec<usize>) -> (r: Vec<usize>)
    ensures
        r@ == v@,
{
    let mut r: Vec<usize> = Vec::new();
    let mut i: usize = 0;
    while i < v.len()
        invariant
            i <= v@.len(),
            r@ == v@.take(i as int),
        decreases v@.len() - i,
    {
        r.push(v[i]);
        i += 1;
        assert(r@ =~= v@.take(i as int));
    }
    assert(v@.take(i as int) =~= v@);
    r
}

impl Applier {
    /// The operations that apply `acts`, in order.
    pub fn apply_all(&self, acts: Vec<Action>) -> (r: Vec<Op>)
        ensures
            exists|parts: Seq<Seq<Op>>|
                #![trigger parts.flatten()]
                parts.len() == acts@.len() && r@ == parts.flatten() && forall|i: int|
                    0 <= i < parts.len() ==> op_for(acts@[i], self.cg@, #[trigger] parts[i]),
    {
        let ghost orig = acts@;
        let ghost mut parts: Seq<Seq<Op>> = Seq::empty();
        let mut rest = acts;
        let mut out: Vec<Op> = Vec::new();
        while rest.len() > 0
            invariant
                parts.len() + rest@.len() == orig.len(),
                rest@ == orig.subrange(parts.len() as int, orig.len() as int),
                out@ == parts.flatten(),
                forall|i: int| 0 <= i < parts.len() ==> op_for(orig[i], self.cg@, #[trigger] parts[i]),
            decreases rest@.len(),
        {
            let a = rest.remove(0);
            let ghost k = parts.len() as int;
            assert(a == orig[k]);
            let mut part: Vec<Op> = Vec::new();
            match a {
                Action::SetCpuset { cgroup, cpus } => {
                    let g = if cgroup.as_str().unicode_len() == 0 { copy_string(&self.cg) } else { cgroup };
                    let text = to_cpuset_list(cpus.as_slice());
                    part.push(Op::WriteCpuset { cgroup: g, cpus: text, cpu_ids: cpus });
                },
                Action::SetCpuWeight { weight } => {
                    let w = if weight < 1 { 1 } else if weight > 10000 { 10000 } else { weight };
                    part.push(Op::WriteCpuWeight { cgroup: copy_string(&self.cg), weight: w });
                },
                Action::SetNice { prio } => {
                    let p = if prio < -20 { -20 } else if prio > 19 { 19 } else { prio };
                    part.push(Op::SetNice { cgroup: copy_string(&self.cg), prio: p });
                },
                Action::SetIoPriority { class, prio } => {
                    part.push(Op::SetIoPriority { cgroup: copy_string(&self.cg), ioprio: encode_ioprio(class, prio) });
                },
                Action::SetSchedBatch { enable } => {
                    part.push(Op::SetSchedBatch { cgroup: copy_string(&self.cg), enable });
                },
                Action::CompactWithinNUMA { .. } => {},
                Action::SpreadAcrossNUMA { .. } => {},
                Action::Prefetch(p) => {
                    part.push(Op::Prefetch(p));
                },
            }
            assert(op_for(orig[k], self.cg@, part@));
            let ghost pv = part@;
            out.append(&mut part);
            proof {
                let np = parts.push(pv);
                assert(np =~= parts + seq![pv]);
                vstd::seq_lib::lemma_flatten_concat(parts, seq![pv]);
                assert(seq![pv].drop_first() =~= Seq::<Seq<Op>>::empty());
                assert(Seq::<Seq<Op>>::empty().flatten() == Seq::<Op>::empty());
                assert(seq![pv].first() == pv);
                assert(pv + Seq::<Op>::empty() =~= pv);
                assert(seq![pv].flatten() =~= pv);
                parts = np;
            }
        }
        out
    }
}

/// Encodes an I/O scheduling class and priority.
pub fn encode_ioprio(class: i32, prio: i32) -> (r: i32)
    ensures
        r == ioprio_value(class, prio),
        0 <= r < 65536,
{
    let c = if class == IOPRIO_CLASS_RT || class == IOPRIO_CLASS_BE || class == IOPRIO_CLASS_IDLE {
        class
    } else {
        IOPRIO_CLASS_BE
    };
    let p = if prio < 0 { 0 } else if prio > 7 { 7 } else { prio };
    c * 8192 + p
}

/// The node list written to `cpuset.mems`: the nodes of the chosen CPUs,
/// coalesced, or node 0 when none is known.
pub fn mems_list(nodes: &[usize]) -> (r: String)
    ensures
        nodes@.len() == 0 ==> r@ == "0"@,
        nodes@.len() > 0 ==> exists|v: Seq<usize>| strictly_increasing(v) && same_values(v, nodes@) && r@ == cpu_list_text(v),
{
    if nodes.len() == 0 {
        String::from_str("0")
    } else {
        to_cpuset_list(nodes)
    }
}

/// Spreading over last-level caches needs no work of its own: the NUMA
/// plans are lowered to cpusets before they reach the applier.
pub fn spread_across_llc(_pid: i32) -> (r: Result<(), ()>)
    ensures
        r is Ok,
{
    Ok(())
}

pub fn compact_within_numa(_pid: i32) -> (r: Result<(), ()>)
    ensures
        r is Ok,
{
    Ok(())
}

} // verus!
