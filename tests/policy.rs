use tuner_agent::actions::Action;
use tuner_agent::metrics::{Config, Psi, PsiScope, Snapshot};
use tuner_agent::numa::Topology;
use tuner_agent::planner::lower_numa_plans;
use tuner_agent::policy::{allowed, choose_arm, Learned, LearnedCfg, EFFECT_DELAY_TICKS};

fn psi(some10: u32, full10: u32) -> Psi {
    Psi {
        some_avg10: some10,
        some_avg60: 0,
        some_avg300: 0,
        some_total_us: 0,
        full_avg10: full10,
        full_avg60: 0,
        full_avg300: 0,
        full_total_us: 0,
        scope: PsiScope::System,
    }
}

fn snap(threads: usize, cpus: usize, runq_us: u64, futex_us: u64, cpu: Psi, mem: Psi) -> Snapshot {
    Snapshot {
        target_pid: 1234,
        threads,
        runq_ewma_ns_mean: runq_us * 1000,
        futex_ewma_ns_mean: futex_us * 1000,
        page_faults_sum: 0,
        llc_delta_per_thread: 0,
        io: None,
        total_cpus: cpus,
        comm_wake: 0,
        comm_futex: 0,
        spikes: 0,
        config: Config {
            llc_spread_threshold: 1000,
            runq_compact_cutoff_milli: 300,
            runq_compact_cutoff_high_milli: 700,
            min_switch_interval_ms: 1200,
        },
        psi: Some(cpu),
        psi_mem: Some(mem),
    }
}

fn single_node(n: usize) -> Topology {
    let mut t = Topology::new();
    t.insert(0, (0..n).collect());
    t
}

fn four_nodes() -> Topology {
    let mut t = Topology::new();
    for node in 0..4u32 {
        let base = node as usize * 4;
        t.insert(node, (base..base + 4).collect());
    }
    t
}

#[test]
fn idle_snapshot_gives_no_request() {
    let mut p = Learned::new();
    let s = snap(4, 4, 0, 0, psi(0, 0), psi(0, 0));
    for t in 0..6u64 {
        assert!(p.tick(&s, t * 500).is_none());
    }
}

#[test]
fn idle_guard_leaves_queue_and_bandit() {
    let mut p = Learned::new();
    let busy = snap(4, 4, 8000, 200, psi(120, 0), psi(0, 0));
    let req = p.tick(&busy, 0).unwrap();
    let acts = p.decide(&busy, 0, &req, 9_999, 1);
    assert_eq!(acts.len(), 1);
    let idle = snap(4, 4, 0, 0, psi(0, 0), psi(0, 0));
    let mut quiet = Learned::new();
    assert!(quiet.tick(&idle, 0).is_none());
    assert_eq!(quiet.bandit().matrix_entry(1, 0, 0), 1_000_000_000_000);
}

#[test]
fn cpu_bound_single_node_box() {
    let mut p = Learned::new();
    let s = snap(4, 4, 8000, 200, psi(120, 0), psi(0, 0));
    let req = p.tick(&s, 0).unwrap();
    assert!(req.allowed.contains(&1) && req.allowed.contains(&2));
    let pick = 1;
    let acts = p.decide(&s, 0, &req, 9_999, pick);
    assert_eq!(p.pending_queue().len(), 1);
    assert_eq!(p.pending_queue()[0].due, 4);
    assert_eq!(p.pending_queue()[0].arm, 1);
    assert_eq!(acts.len(), 1);
    match &acts[0] {
        Action::SetCpuWeight { weight } => assert_eq!(*weight, 160),
        Action::SetNice { prio } => assert_eq!(*prio, -1),
        other => panic!("unexpected {:?}", other),
    }
    assert_eq!(EFFECT_DELAY_TICKS, 4);
}

#[test]
fn numa_spread_then_dwell() {
    let mut p = Learned::new();
    let s = snap(12, 16, 50_000, 1000, psi(300, 50), psi(0, 0));
    let req = p.tick(&s, 0).unwrap();
    assert!(req.allowed.contains(&4));
    let acts = p.decide(&s, 0, &req, 9_999, 4);
    assert_eq!(acts.len(), 1);
    assert!(matches!(acts[0], Action::SpreadAcrossNUMA { width: 12 }));
    let lowered = lower_numa_plans(acts, &s, &four_nodes(), None);
    assert_eq!(lowered.len(), 1);
    match &lowered[0] {
        Action::SetCpuset { cgroup, cpus } => {
            assert_eq!(cgroup, "");
            assert_eq!(cpus, &vec![0, 4, 8, 12, 1, 5, 9, 13, 2, 6, 10, 14]);
        }
        other => panic!("unexpected {:?}", other),
    }
    let req2 = p.tick(&s, 500).unwrap();
    assert_eq!(req2.allowed, vec![0, 3, 4]);
    p.decide(&s, 500, &req2, 9_999, 0);
    let req3 = p.tick(&s, 1000).unwrap();
    assert_eq!(req3.allowed, vec![0, 3, 4]);
    p.decide(&s, 1000, &req3, 9_999, 0);
    let req4 = p.tick(&s, 4999).unwrap();
    assert_eq!(req4.allowed, vec![0, 3, 4]);
    p.decide(&s, 4999, &req4, 9_999, 4);
    let req5 = p.tick(&s, 5000).unwrap();
    assert_eq!(req5.allowed, vec![0, 3, 4]);
    p.decide(&s, 5000, &req5, 9_999, 0);
    let req6 = p.tick(&s, 9999).unwrap();
    assert_eq!(req6.allowed, vec![0, 1, 2, 3, 4]);
}

#[test]
fn mem_pressure_removes_spread() {
    let mut p = Learned::new();
    let s = snap(12, 16, 50_000, 1000, psi(300, 50), psi(0, 10));
    let req = p.tick(&s, 0).unwrap();
    assert!(!req.allowed.contains(&4));
    assert!(req.allowed.contains(&3));
}

#[test]
fn reward_credited_four_ticks_later() {
    let mut p = Learned::new();
    let s = snap(4, 4, 8000, 200, psi(120, 0), psi(0, 0));
    let req = p.tick(&s, 0).unwrap();
    p.decide(&s, 0, &req, 9_999, 1);
    for t in 1..4u64 {
        let r = p.tick(&s, t * 500).unwrap();
        p.decide(&s, t * 500, &r, 9_999, 0);
        assert_eq!(p.bandit().matrix_entry(1, 0, 0), 1_000_000_000_000);
    }
    p.tick(&s, 2000).unwrap();
    assert_eq!(p.bandit().matrix_entry(1, 0, 0), 2_000_000_000_000);
    assert_eq!(p.bandit().matrix_entry(0, 0, 0), 1_000_000_000_000);
    let r = p.tick(&s, 2500).unwrap();
    p.decide(&s, 2500, &r, 9_999, 0);
    assert_eq!(p.bandit().matrix_entry(1, 0, 0), 2_000_000_000_000);
}

#[test]
fn epsilon_draw_picks_uniformly_from_allowed() {
    let allowed_arms = vec![0, 3, 4];
    assert_eq!(choose_arm(&allowed_arms, 500, 1, 4), 3);
    assert_eq!(choose_arm(&allowed_arms, 500, 499, 0), 3);
    assert_eq!(choose_arm(&allowed_arms, 500, 500, 0), 0);
    assert_eq!(choose_arm(&allowed_arms, 0, 1, 4), 4);
}

#[test]
fn lone_noop_falls_back_to_weight_then_nice() {
    let s = snap(1, 1, 8000, 0, psi(100, 0), psi(0, 0));
    let mut cfg = LearnedCfg::default();
    cfg.enabled_arms = [true, true, false, true, true];
    assert_eq!(allowed(&cfg, &s, false), vec![0, 1]);
    cfg.allow_cpu_weight = false;
    cfg.enabled_arms = [true, true, true, true, true];
    assert_eq!(allowed(&cfg, &s, false), vec![0, 2]);
    let _ = single_node(4);
}

#[test]
fn reward_credited_on_time_across_an_idle_tick() {
    let mut p = Learned::new();
    let busy = snap(4, 4, 0, 0, psi(120, 0), psi(0, 0));
    let idle = snap(4, 4, 0, 0, psi(0, 0), psi(0, 0));
    let req = p.tick(&busy, 0).unwrap();
    p.decide(&busy, 0, &req, 9_999, 1);
    assert!(p.tick(&idle, 500).is_none());
    assert_eq!(p.pending_queue()[0].due, 3);
    for t in 2..4u64 {
        let r = p.tick(&busy, t * 500).unwrap();
        p.decide(&busy, t * 500, &r, 9_999, 0);
        assert_eq!(p.bandit().matrix_entry(1, 0, 0), 1_000_000_000_000);
    }
    p.tick(&busy, 2000).unwrap();
    assert_eq!(p.bandit().matrix_entry(1, 0, 0), 2_000_000_000_000);
    assert!(p.pending_queue().is_empty());
}

#[test]
fn reward_waits_for_a_tick_the_guard_lets_through() {
    let mut p = Learned::new();
    let busy = snap(4, 4, 0, 0, psi(120, 0), psi(0, 0));
    let idle = snap(4, 4, 0, 0, psi(0, 0), psi(0, 0));
    let req = p.tick(&busy, 0).unwrap();
    p.decide(&busy, 0, &req, 9_999, 2);
    for t in 1..=5u64 {
        assert!(p.tick(&idle, t * 500).is_none());
    }
    assert_eq!(p.pending_queue()[0].due, 0);
    assert_eq!(p.bandit().matrix_entry(2, 0, 0), 1_000_000_000_000);
    p.tick(&busy, 3000).unwrap();
    assert_eq!(p.bandit().matrix_entry(2, 0, 0), 2_000_000_000_000);
}
