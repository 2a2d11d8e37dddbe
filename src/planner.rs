//! Lowering of the abstract NUMA plans to concrete cpuset actions.
use vstd::prelude::*;
use crate::actions::Action;
use crate::metrics::Snapshot;
use crate::numa::{pick_compact, pick_spread, max_len, rounds_upto, take_at_most, Topology};

verus! {

/// CPUs a `CompactWithinNUMA` plan asks for on a node with CPU list `c`:
/// the first `min(threads, |c|)` of them, and no more than `total_cpus`.
pub open spec fn compact_cpus(snap: Snapshot, c: Seq<usize>) -> Seq<usize> {
    let need = vstd::math::min(vstd::math::min(snap.threads as int, c.len() as int), snap.total_cpus as int);
    take_at_most(c, need)
}

/// `part` holds exactly one cpuset action for the default cgroup with `cpus`.
pub open spec fn one_cpuset(part: Seq<Action>, cpus: Seq<usize>) -> bool {
    &&& part.len() == 1
    &&& part[0] matches Action::SetCpuset { cgroup, cpus: c } && cgroup@ == Seq::<char>::empty() && c@ == cpus
}

/// CPUs a `SpreadAcrossNUMA` plan of `width` asks for: the round robin cut to
/// `clamp(width, 1, max(total_cpus, 1))`.
pub open spec fn spread_cpus(snap: Snapshot, topo: Topology, width: usize) -> Seq<usize> {
    let hi = if snap.total_cpus >= 1 { snap.total_cpus as int } else { 1 };
    let k = if width < 1 { 1 } else if width > hi { hi } else { width as int };
    take_at_most(rounds_upto(topo.lists(), max_len(topo.lists())), k)
}

/// `part` holds one cpuset action for the default cgroup with `cpus`, or
/// nothing when `cpus` is empty.
pub open spec fn cpuset_part(part: Seq<Action>, cpus: Seq<usize>) -> bool {
    if cpus.len() == 0 {
        part.len() == 0
    } else {
        &&& part.len() == 1
        &&& part[0] matches Action::SetCpuset { cgroup, cpus: c } && cgroup@ == Seq::<char>::empty() && c@ == cpus
    }
}

/// What the planner puts in place of `a`: a compact plan becomes a cpuset on
/// its node (or the `dominant` node when it names none), and nothing when no
/// known node results; a spread plan becomes a cpuset spread over the nodes,
/// or nothing when that picks no CPU; any other action stays itself.
pub open spec fn lowers_to(a: Action, snap: Snapshot, topo: Topology, dominant: Option<u32>, part: Seq<Action>) -> bool {
    match a {
        Action::CompactWithinNUMA { node } => {
            let sel = if node is Some { node } else { dominant };
            match sel {
                Some(n) => match topo.cpus_of(n) {
                    Some(c) => one_cpuset(part, compact_cpus(snap, c)),
                    None => part.len() == 0,
                },
                None => part.len() == 0,
            }
        },
        Action::SpreadAcrossNUMA { width } => cpuset_part(part, spread_cpus(snap, topo, width)),
        _ => part == seq![a],
    }
}

fn lower_one(a: Action, snap: &Snapshot, topo: &Topology, dominant: Option<u32>) -> (r: Vec<Action>)
    requires
        topo.wf(),
    ensures
        lowers_to(a, *snap, *topo, dominant, r@),
{
    let mut out: Vec<Action> = Vec::new();
    match a {
        Action::CompactWithinNUMA { node } => {
            let sel = match node {
                Some(n) => Some(n),
                None => dominant,
            };
            if let Some(n) = sel {
                if topo.contains_node(n) {
                    let per_node = topo.node_len(n);
                    let mut need = if snap.threads < per_node { snap.threads } else { per_node };
                    if snap.total_cpus < need {
                        need = snap.total_cpus;
                    }
                    let cpus = pick_compact(n, need, topo);
                    out.push(Action::SetCpuset { cgroup: String::new(), cpus });
                }
            }
        },
        Action::SpreadAcrossNUMA { width } => {
            let hi = if snap.total_cpus >= 1 { snap.total_cpus } else { 1 };
            let k = if width < 1 { 1 } else if width > hi { hi } else { width };
            let cpus = pick_spread(k, topo);
            if cpus.len() > 0 {
                out.push(Action::SetCpuset { cgroup: String::new(), cpus });
            }
        },
        other => {
            out.push(other);
        },
    }
    assert(lowers_to(a, *snap, *topo, dominant, out@));
    out
}

/// Lowers every NUMA plan of `actions` on the topology `topo`; `dominant` is
/// the node holding most of the target's memory, used by compact plans that
/// name no node. Other actions pass through unchanged, in order.
pub fn lower_numa_plans(actions: Vec<Action>, snap: &Snapshot, topo: &Topology, dominant: Option<u32>) -> (r: Vec<Action>)
    requires
        topo.wf(),
    ensures
        exists|parts: Seq<Seq<Action>>|
            #![trigger parts.flatten()]
            parts.len() == actions@.len() && r@ == parts.flatten() && forall|i: int|
                0 <= i < parts.len() ==> lowers_to(actions@[i], *snap, *topo, dominant, #[trigger] parts[i]),
{
    let ghost orig = actions@;
    let ghost mut parts: Seq<Seq<Action>> = Seq::empty();
    let mut rest = actions;
    let mut out: Vec<Action> = Vec::new();
    while rest.len() > 0
        invariant
            topo.wf(),
            parts.len() + rest@.len() == orig.len(),
            rest@ == orig.subrange(parts.len() as int, orig.len() as int),
            out@ == parts.flatten(),
            forall|i: int| 0 <= i < parts.len() ==> lowers_to(orig[i], *snap, *topo, dominant, #[trigger] parts[i]),
        decreases rest@.len(),
    {
        let a = rest.remove(0);
        let ghost k = parts.len() as int;
        assert(a == orig[k]);
        let part = lower_one(a, snap, topo, dominant);
        let mut part = part;
        let ghost pv = part@;
        out.append(&mut part);
        proof {
            let np = parts.push(pv);
            assert(np =~= parts + seq![pv]);
            vstd::seq_lib::lemma_flatten_concat(parts, seq![pv]);
            assert(seq![pv].drop_first() =~= Seq::<Seq<Action>>::empty());
            assert(Seq::<Seq<Action>>::empty().flatten() == Seq::<Action>::empty());
            assert(seq![pv].first() == pv);
            assert(pv + Seq::<Action>::empty() =~= pv);
            assert(seq![pv].flatten() =~= pv);
            parts = np;
        }
    }
    out
}

/// The planner keeps every action that is not a NUMA plan as it is, and puts
/// in place of each NUMA plan at most one cpuset action for the default
/// cgroup, with at most `total_cpus` CPUs.
pub proof fn lemma_lowering_shape(a: Action, snap: Snapshot, topo: Topology, dominant: Option<u32>, part: Seq<Action>)
    requires
        snap.wf(),
        topo.wf(),
        lowers_to(a, snap, topo, dominant, part),
    ensures
        !a.is_numa_plan() ==> part == seq![a],
        a.is_numa_plan() ==> {
            &&& part.len() <= 1
            &&& forall|j: int|
                0 <= j < part.len() ==> (#[trigger] part[j] matches Action::SetCpuset { cgroup, cpus }
                    && cgroup@ == Seq::<char>::empty() && cpus@.len() <= snap.total_cpus)
        },
{
    match a {
        Action::CompactWithinNUMA { node } => {
            let sel = if node is Some { node } else { dominant };
            if let Some(n) = sel {
                if let Some(c) = topo.cpus_of(n) {
                    assert(compact_cpus(snap, c).len() <= snap.total_cpus);
                }
            }
        },
        _ => {},
    }
}

} // verus!
