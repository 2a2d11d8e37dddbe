use tuner_agent::actions::{encode_ioprio, mems_list, Action, Applier, Op, PrefetchAction, PrefetchBackend};
use tuner_agent::bandit::LinUcb;
use tuner_agent::events::{host_is_little_endian, parse_comm_event, parse_comm_event_in, parse_tuner_event, parse_tuner_event_in, CommEv};
use tuner_agent::gate::{stable_key, ActionGate};
use tuner_agent::metrics::{IoSample, Psi, PsiScope, RawSample, SnapshotBuilder, ThreadSample};
use tuner_agent::numa::{pick_compact, pick_spread, Topology};
use tuner_agent::planner::lower_numa_plans;
use tuner_agent::policy::Learned;
use tuner_agent::metrics::Event;
use tuner_agent::stride::PrefetchModel;
use tuner_agent::topology::to_cpuset_list;
use tuner_agent::util::Cooldown;

fn topo(nodes: &[(u32, Vec<usize>)]) -> Topology {
    let mut t = Topology::new();
    for (n, c) in nodes {
        t.insert(*n, c.clone());
    }
    t
}

fn sample(threads: Vec<ThreadSample>, futex_us: u64) -> RawSample {
    RawSample {
        target_pid: 42,
        threads,
        agg_futex_us: futex_us,
        llc_misses: 900,
        io: None,
        online_cpus: 0,
        comm_wake: 1,
        comm_futex: 2,
        spikes: 3,
        psi: None,
        psi_mem: None,
    }
}

#[test]
fn comm_records_decode() {
    let mut wake = 1u32.to_ne_bytes().to_vec();
    wake.extend_from_slice(&[0u8; 4]);
    wake.extend_from_slice(&7u32.to_ne_bytes());
    wake.extend_from_slice(&9u32.to_ne_bytes());
    assert!(matches!(parse_comm_event(&wake), Some(CommEv::Wake { waker: 7, wakee: 9 })));
    assert!(parse_comm_event(&wake[..15]).is_none());
    let mut futex = 2u32.to_ne_bytes().to_vec();
    futex.extend_from_slice(&[0u8; 4]);
    futex.extend_from_slice(&0xdead_beef_u64.to_ne_bytes());
    futex.extend_from_slice(&5u32.to_ne_bytes());
    futex.extend_from_slice(&128u32.to_ne_bytes());
    assert!(matches!(parse_comm_event(&futex), Some(CommEv::Futex { uaddr: 0xdead_beef, tid: 5, op: 128 })));
    assert!(parse_comm_event(&futex[..23]).is_none());
    let mut other = futex.clone();
    other[..4].copy_from_slice(&3u32.to_ne_bytes());
    assert!(parse_comm_event(&other).is_none());
}

#[test]
fn tuner_records_decode() {
    let mut b = Vec::new();
    b.extend_from_slice(&11u32.to_ne_bytes());
    b.extend_from_slice(&2u32.to_ne_bytes());
    b.extend_from_slice(&300u64.to_ne_bytes());
    b.extend_from_slice(&123456789u64.to_ne_bytes());
    let e = parse_tuner_event(&b).unwrap();
    assert_eq!((e.pid, e.kind, e.val_us, e.ts_ns), (11, 2, 300, 123456789));
    assert!(parse_tuner_event(&b[..23]).is_none());
}

#[test]
fn bandit_update_keeps_matrix_symmetric() {
    let mut b = LinUcb::new(5, 750);
    let x = [1_000_000, 300_000, -200_000, 500_000];
    b.update(2, &x, 400_000);
    b.update(2, &[1_000_000, 0, 1_000_000, 0], -1_000_000);
    for i in 0..4 {
        for j in 0..4 {
            assert_eq!(b.matrix_entry(2, i, j), b.matrix_entry(2, j, i));
        }
        assert!(b.matrix_entry(2, i, i) >= 1_000_000_000_000);
    }
    assert_eq!(b.matrix_entry(2, 0, 1), 300_000_000_000);
    assert_eq!(b.matrix_entry(2, 0, 0), 3_000_000_000_000);
    assert_eq!(b.vector_entry(2, 0), 400_000_000_000 - 1_000_000_000_000);
    assert_eq!(b.matrix_entry(1, 0, 1), 0);
    assert_eq!(b.alpha(), 750);
}

#[test]
fn stride_prefetch_scenario() {
    let mut p = Learned::new();
    let mut plans = Vec::new();
    for pg in 100u64..=106 {
        let e = Event::PrefetchFault { tgid: 42, dev: 8, ino: 9, pgoff: pg, ts_ns: 0 };
        if let Some(a) = p.on_event(&e) {
            plans.push(a);
        }
    }
    assert_eq!(plans.len(), 1);
    match &plans[0] {
        Action::Prefetch(a) => {
            assert_eq!((a.tgid, a.dev, a.ino), (42, 8, 9));
            let want: Vec<(u64, u64)> = (107u64..=114).map(|k| (k * 4096, 131072)).collect();
            assert_eq!(a.ranges, want);
            assert!(matches!(a.backend, PrefetchBackend::Fadvise));
        }
        other => panic!("unexpected {:?}", other),
    }
    assert!(p.on_event(&Event::FutexSpike { us: 5 }).is_none());
}

#[test]
fn arithmetic_faults_with_stride_three() {
    let mut m = PrefetchModel::new();
    let mut last = None;
    for k in 0..7u64 {
        last = m.on_fault(1, 2, 3, 10 + 3 * k);
    }
    let a = last.unwrap();
    assert_eq!(a.ranges.len(), 8);
    assert_eq!(a.ranges[0], ((28 + 3) * 4096, 131072));
    assert_eq!(a.ranges[7], ((28 + 24) * 4096, 131072));
    assert!(m.on_fault(1, 2, 4, 10).is_none());
    let mut n = PrefetchModel::new();
    for pg in [5u64, 5, 5, 5, 5, 5, 5] {
        assert!(n.on_fault(1, 1, 1, pg).is_none());
    }
}

#[test]
fn cpuset_list_coalesces_ranges() {
    assert_eq!(to_cpuset_list(&[0, 1, 2, 3, 8]), "0-3,8");
    assert_eq!(to_cpuset_list(&[8, 3, 2, 2, 0, 1]), "0-3,8");
    assert_eq!(to_cpuset_list(&[5]), "5");
    assert_eq!(to_cpuset_list(&[1, 3, 5, 6]), "1,3,5-6");
    assert_eq!(to_cpuset_list(&[]), "");
    assert_eq!(mems_list(&[]), "0");
    assert_eq!(mems_list(&[1, 0]), "0-1");
}

#[test]
fn compact_and_spread_picks() {
    let t = topo(&[(1, vec![4, 5, 6, 7]), (0, vec![0, 1, 2, 3])]);
    assert_eq!(pick_compact(1, 2, &t), vec![4, 5]);
    assert!(pick_compact(0, 0, &t).is_empty());
    assert_eq!(pick_compact(0, 1, &t), vec![0]);
    assert_eq!(pick_compact(0, 9, &t), vec![0, 1, 2, 3]);
    assert!(pick_compact(7, 2, &t).is_empty());
    assert_eq!(pick_spread(3, &t), vec![0, 4, 1]);
    assert_eq!(pick_spread(20, &t).len(), 8);
    assert!(pick_spread(0, &t).is_empty());
    assert_eq!(t.node_ids(), vec![0, 1]);
}

#[test]
fn planner_lowers_only_numa_plans() {
    let t = topo(&[(0, vec![0, 1, 2, 3]), (1, vec![4, 5, 6, 7])]);
    let mut s = tuner_agent::metrics::SnapshotBuilder::new().build(&sample(
        (0..6).map(|tid| ThreadSample { tid, sched: None, minflt: None }).collect(),
        0,
    ));
    s.total_cpus = 5;
    let acts = vec![
        Action::SetNice { prio: -1 },
        Action::CompactWithinNUMA { node: Some(1) },
        Action::SpreadAcrossNUMA { width: 50 },
        Action::CompactWithinNUMA { node: None },
    ];
    let out = lower_numa_plans(acts, &s, &t, None);
    assert_eq!(out.len(), 3);
    assert!(matches!(out[0], Action::SetNice { prio: -1 }));
    match (&out[1], &out[2]) {
        (Action::SetCpuset { cpus: a, .. }, Action::SetCpuset { cpus: b, .. }) => {
            assert_eq!(a, &vec![4, 5, 6, 7]);
            assert_eq!(b, &vec![0, 4, 1, 5, 2]);
        }
        other => panic!("unexpected {:?}", other),
    }
    let out2 = lower_numa_plans(vec![Action::CompactWithinNUMA { node: None }], &s, &t, Some(0));
    assert!(matches!(&out2[0], Action::SetCpuset { cpus, .. } if cpus.len() == 4));
    let out3 = lower_numa_plans(vec![Action::CompactWithinNUMA { node: Some(9) }], &s, &t, None);
    assert!(out3.is_empty());
}

#[test]
fn compact_plan_on_empty_node_keeps_its_cpuset() {
    let t = topo(&[(0, vec![]), (1, vec![4, 5])]);
    let s = SnapshotBuilder::new().build(&sample(vec![ThreadSample { tid: 1, sched: None, minflt: None }], 0));
    let out = lower_numa_plans(vec![Action::CompactWithinNUMA { node: Some(0) }], &s, &t, None);
    assert_eq!(out.len(), 1);
    assert!(matches!(&out[0], Action::SetCpuset { cgroup, cpus } if cgroup.is_empty() && cpus.is_empty()));
}

#[test]
fn device_numbers_unpack() {
    let rdev: u64 = (0x12 << 20) | (259 << 8) | 0x34;
    assert_eq!(tuner_agent::procfs::dev_major_minor(rdev), (259, 0x34 | (0x12 << 8)));
    assert_eq!(tuner_agent::procfs::dev_major_minor((8 << 8) | 1), (8, 1));
}

#[test]
fn stable_keys_are_canonical() {
    assert_eq!(stable_key(&Action::SetCpuWeight { weight: 160 }), "cpuweight:160");
    assert_eq!(stable_key(&Action::SetNice { prio: -1 }), "nice:-1");
    assert_eq!(stable_key(&Action::SetIoPriority { class: 2, prio: 4 }), "ioprio:2:4");
    assert_eq!(stable_key(&Action::SetSchedBatch { enable: true }), "sched_batch:true");
    assert_eq!(stable_key(&Action::CompactWithinNUMA { node: None }), "plan_compact:None");
    assert_eq!(stable_key(&Action::CompactWithinNUMA { node: Some(3) }), "plan_compact:Some(3)");
    assert_eq!(stable_key(&Action::SpreadAcrossNUMA { width: 12 }), "plan_spread:12");
    assert_eq!(
        stable_key(&Action::SetCpuset { cgroup: "/sys/fs/cgroup/a".to_string(), cpus: vec![0, 1, 2] }),
        "cpuset:/sys/fs/cgroup/a:[0, 1, 2]"
    );
    let p = PrefetchAction { tgid: 42, dev: 8, ino: 9, ranges: vec![(4096, 131072), (8192, 131072)], backend: PrefetchBackend::Fadvise };
    assert_eq!(
        stable_key(&Action::Prefetch(p)),
        "prefetch_action:PrefetchAction { tgid: 42, dev: 8, ino: 9, ranges: [(4096, 131072), (8192, 131072)], backend: Fadvise }"
    );
}

fn busy_snapshot() -> tuner_agent::metrics::Snapshot {
    let mut s = SnapshotBuilder::new().build(&sample(vec![ThreadSample { tid: 1, sched: None, minflt: None }], 0));
    s.runq_ewma_ns_mean = 50_000_000;
    s.psi = Some(Psi {
        some_avg10: 300,
        some_avg60: 0,
        some_avg300: 0,
        some_total_us: 0,
        full_avg10: 0,
        full_avg60: 0,
        full_avg300: 0,
        full_total_us: 0,
        scope: PsiScope::System,
    });
    s
}

#[test]
fn gate_holds_identical_keys_for_cooldown() {
    let mut g = ActionGate::new(5000, 6, 25_000_000);
    let s = busy_snapshot();
    let out = g.filter(&s, 1000, vec![Action::SetCpuWeight { weight: 160 }, Action::SetCpuWeight { weight: 160 }]);
    assert_eq!(out.len(), 1);
    assert_eq!(g.reason(), "cooldown");
    let out = g.filter(&s, 5999, vec![Action::SetCpuWeight { weight: 160 }, Action::SetNice { prio: -1 }]);
    assert_eq!(out.len(), 1);
    assert!(matches!(out[0], Action::SetNice { .. }));
    let out = g.filter(&s, 6000, vec![Action::SetCpuWeight { weight: 160 }]);
    assert_eq!(out.len(), 1);
    assert_eq!(g.reason(), "ok");
}

#[test]
fn gate_goes_quiet_after_six_idle_ticks() {
    let mut g = ActionGate::new(5000, 6, 25_000_000);
    let mut s = SnapshotBuilder::new().build(&sample(vec![], 0));
    s.psi = Some(Psi {
        some_avg10: 0,
        some_avg60: 0,
        some_avg300: 0,
        some_total_us: 0,
        full_avg10: 0,
        full_avg60: 0,
        full_avg300: 0,
        full_total_us: 0,
        scope: PsiScope::System,
    });
    for t in 0..5u64 {
        let out = g.filter(&s, t * 500, vec![Action::SetNice { prio: -1 }]);
        assert_eq!(out.len(), if t == 0 { 1 } else { 0 });
    }
    let out = g.filter(&s, 3000, vec![Action::SetNice { prio: -2 }]);
    assert!(out.is_empty());
    assert_eq!(g.reason(), "psi-idle");
}

#[test]
fn builder_smooths_and_bounds() {
    let mut b = SnapshotBuilder::new();
    let t = |runq| vec![
        ThreadSample { tid: 1, sched: Some((0, runq)), minflt: Some(10) },
        ThreadSample { tid: 2, sched: Some((0, runq)), minflt: Some(5) },
    ];
    let s1 = b.build(&sample(t(1_000_000), 1000));
    assert_eq!(s1.threads, 2);
    assert_eq!(s1.runq_ewma_ns_mean, 0);
    assert_eq!(s1.futex_ewma_ns_mean, 150_000);
    assert_eq!(s1.page_faults_sum, 15);
    assert_eq!(s1.llc_delta_per_thread, 450);
    assert_eq!(s1.total_cpus, 1);
    assert_eq!((s1.comm_wake, s1.comm_futex, s1.spikes), (1, 2, 3));
    let s2 = b.build(&sample(t(3_000_000), 0));
    assert_eq!(s2.runq_ewma_ns_mean, 800_000);
    assert_eq!(s2.futex_ewma_ns_mean, 105_000);
    let mut raw = sample(vec![], 0);
    raw.io = Some(IoSample { dev: "sda".to_string(), seq: 3, rnd: 1 });
    raw.online_cpus = 8;
    let s3 = b.build(&raw);
    let io = s3.io.unwrap();
    assert_eq!(io.dev, "sda");
    assert_eq!(io.seq_ratio_ppm, 750_000);
    assert_eq!(s3.total_cpus, 8);
    raw.io = Some(IoSample { dev: "sda".to_string(), seq: 0, rnd: 0 });
    assert_eq!(b.build(&raw).io.unwrap().seq_ratio_ppm, 0);
}

#[test]
fn applier_lowers_actions_to_operations() {
    let ap = Applier { cg: "/sys/fs/cgroup/app".to_string(), dry: false };
    let ops = ap.apply_all(vec![
        Action::SetCpuset { cgroup: String::new(), cpus: vec![3, 1, 2] },
        Action::SetCpuWeight { weight: 20000 },
        Action::SetNice { prio: -40 },
        Action::SetIoPriority { class: 9, prio: 12 },
        Action::SpreadAcrossNUMA { width: 2 },
        Action::SetSchedBatch { enable: false },
    ]);
    assert_eq!(ops.len(), 5);
    match &ops[0] {
        Op::WriteCpuset { cgroup, cpus, cpu_ids } => {
            assert_eq!(cgroup, "/sys/fs/cgroup/app");
            assert_eq!(cpus, "1-3");
            assert_eq!(cpu_ids, &vec![3, 1, 2]);
        }
        other => panic!("unexpected {:?}", other),
    }
    assert!(matches!(&ops[1], Op::WriteCpuWeight { weight: 10000, .. }));
    assert!(matches!(&ops[2], Op::SetNice { prio: -20, .. }));
    assert!(matches!(&ops[3], Op::SetIoPriority { ioprio, .. } if *ioprio == (2 << 13) | 7));
    assert!(matches!(&ops[4], Op::SetSchedBatch { enable: false, .. }));
    assert_eq!(encode_ioprio(1, 3), (1 << 13) | 3);
    assert_eq!(encode_ioprio(3, -1), 3 << 13);
}

#[test]
fn permission_denied_cpuset_keeps_cpus_for_affinity() {
    let ap = Applier { cg: "/sys/fs/cgroup/app".to_string(), dry: false };
    let ops = ap.apply_all(vec![Action::SetCpuset { cgroup: "/sys/fs/cgroup/other".to_string(), cpus: vec![0, 1] }]);
    match &ops[0] {
        Op::WriteCpuset { cgroup, cpus, cpu_ids } => {
            assert_eq!(cgroup, "/sys/fs/cgroup/other");
            assert_eq!(cpus, "0-1");
            assert_eq!(cpu_ids, &vec![0, 1]);
        }
        other => panic!("unexpected {:?}", other),
    }
}

#[test]
fn cooldown_timer() {
    let mut c = Cooldown::new();
    assert!(c.ready(0));
    c.arm_ms(1000, 500);
    assert!(!c.ready(1499));
    assert!(c.ready(1500));
    c.arm_ms(u64::MAX - 1, 10);
    assert!(!c.ready(u64::MAX - 1));
}

#[test]
fn records_decode_in_either_byte_order() {
    let mut be = Vec::new();
    be.extend_from_slice(&1u32.to_be_bytes());
    be.extend_from_slice(&[0u8; 4]);
    be.extend_from_slice(&0x0102_0304u32.to_be_bytes());
    be.extend_from_slice(&5u32.to_be_bytes());
    assert!(matches!(parse_comm_event_in(&be, false), Some(CommEv::Wake { waker: 0x0102_0304, wakee: 5 })));
    assert!(parse_comm_event_in(&be, true).is_none());
    let mut le = Vec::new();
    le.extend_from_slice(&7u32.to_le_bytes());
    le.extend_from_slice(&8u32.to_le_bytes());
    le.extend_from_slice(&0x1122_3344_5566_7788u64.to_le_bytes());
    le.extend_from_slice(&9u64.to_le_bytes());
    let e = parse_tuner_event_in(&le, true).unwrap();
    assert_eq!((e.pid, e.kind, e.val_us, e.ts_ns), (7, 8, 0x1122_3344_5566_7788, 9));
    assert_eq!(host_is_little_endian(), 1u32.to_ne_bytes()[0] == 1);
}
