use tuner_agent::events::{parse_prefetch_evt, sum_shards, zero_blob};
use tuner_agent::maps::maps_path_for;
use tuner_agent::metrics::PsiScope;
use tuner_agent::procfs::{cgroup_path, dominant_node, parse_pids, schedstat_pair, stat_minflt};
use tuner_agent::psi::{parse_psi, PsiSnap};
use tuner_agent::util::TickScheduler;
use tuner_agent::text::{parse_u64, split_words};
use tuner_agent::topology::{parse_cpu_list, to_cpuset_list};

#[test]
fn cpu_list_parses_ranges_and_singles() {
    assert_eq!(parse_cpu_list(b"0-3,8\n"), vec![0, 1, 2, 3, 8]);
    assert_eq!(parse_cpu_list(b" 8, 3-1 ,2,x,5-"), vec![1, 2, 3, 8]);
    assert_eq!(parse_cpu_list(b""), Vec::<usize>::new());
}

#[test]
fn cpu_list_round_trips_to_minimal_form() {
    for text in ["0-3,8", "0,1,2,3,8", "8,0-2,3", "5", "1,3,5-6"] {
        let parsed = parse_cpu_list(text.as_bytes());
        let emitted = to_cpuset_list(&parsed);
        assert_eq!(parse_cpu_list(emitted.as_bytes()), parsed);
    }
    assert_eq!(to_cpuset_list(&parse_cpu_list(b"0,1,2,3,8")), "0-3,8");
}

#[test]
fn psi_file_parses_both_lines() {
    let text = b"some avg10=1.23 avg60=0.50 avg300=0.05 total=123456\nfull avg10=0.10 avg60=0.00 avg300=7 total=99\n";
    let p = parse_psi(text, PsiScope::System);
    assert_eq!((p.some_avg10, p.some_avg60, p.some_avg300, p.some_total_us), (123, 50, 5, 123456));
    assert_eq!((p.full_avg10, p.full_avg60, p.full_avg300, p.full_total_us), (10, 0, 700, 99));
    assert_eq!(p.scope, PsiScope::System);
    let q = parse_psi(b"some avg10=bad avg60=2.345 total=x\n", PsiScope::Cgroup);
    assert_eq!((q.some_avg10, q.some_avg60, q.some_total_us), (0, 234, 0));
    assert_eq!(q.full_avg10, 0);
}

#[test]
fn proc_fields_parse() {
    assert_eq!(schedstat_pair(b"123456 7890 12\n"), Some((123456, 7890)));
    assert_eq!(schedstat_pair(b"123456\n"), None);
    let stat = b"42 (app) S 1 42 42 0 -1 4194560 777 0 0 0 5 3 0 0 20 0 1 0";
    assert_eq!(stat_minflt(stat), Some(777));
    assert_eq!(stat_minflt(b"1 2 3"), None);
    assert_eq!(parse_pids(b"12\n 34 \nx\n\n99999999999\n56"), vec![12, 34, 56]);
    assert_eq!(parse_u64(b"18446744073709551615"), Some(u64::MAX));
    assert_eq!(parse_u64(b"18446744073709551616"), None);
    assert_eq!(split_words(b"  a bc\td  ").len(), 3);
}

#[test]
fn cgroup_path_from_proc_file() {
    assert_eq!(cgroup_path(b"0::/user.slice/app.scope\n"), b"/sys/fs/cgroup/user.slice/app.scope".to_vec());
    assert_eq!(cgroup_path(b"garbage\n"), b"/sys/fs/cgroup".to_vec());
}

#[test]
fn dominant_node_by_page_count() {
    let maps = b"7f00 default file=/lib/a.so N0=10 N1=30\n7f10 default anon=5 N1=2 N0=40\n";
    assert_eq!(dominant_node(maps), Some(0));
    assert_eq!(dominant_node(b"7f00 default N0=5 N2=5\n"), Some(2));
    assert_eq!(dominant_node(b"7f00 default anon=3\n"), None);
}

#[test]
fn maps_line_resolves_path() {
    let maps = b"7f9f0000-7f9f1000 r--p 00000000 08:01 131339 /lib/x.so\n7fa00000-7fa01000 r--p 00000000 08:02 7 /data/my file.db\n";
    let dev = (8u64 << 20) | 2;
    assert_eq!(maps_path_for(maps, dev, 7), Some(b"/data/my file.db".to_vec()));
    assert_eq!(maps_path_for(maps, (8 << 20) | 1, 131339), Some(b"/lib/x.so".to_vec()));
    assert_eq!(maps_path_for(maps, dev, 8), None);
}

#[test]
fn prefetch_records_and_shards_decode() {
    let mut b = Vec::new();
    b.extend_from_slice(&42u32.to_ne_bytes());
    b.extend_from_slice(&43u32.to_ne_bytes());
    for v in [5u64, 8, 9, 100] {
        b.extend_from_slice(&v.to_ne_bytes());
    }
    let e = parse_prefetch_evt(&b).unwrap();
    assert_eq!((e.tgid, e.pid, e.ts_ns, e.sb_dev, e.ino, e.pgoff), (42, 43, 5, 8, 9, 100));
    assert!(parse_prefetch_evt(&b[..39]).is_none());
    let mut s1 = Vec::new();
    s1.extend_from_slice(&10u64.to_ne_bytes());
    s1.extend_from_slice(&1u64.to_ne_bytes());
    let mut s2 = Vec::new();
    s2.extend_from_slice(&u64::MAX.to_ne_bytes());
    s2.extend_from_slice(&2u64.to_ne_bytes());
    let sum = sum_shards(&vec![s1, s2, vec![1, 2]]);
    assert_eq!((sum.futex_us, sum.page_faults), (u64::MAX, 3));
    assert_eq!(zero_blob(), vec![0u8; 16]);
}

#[test]
fn psi_snap_reads_some_averages() {
    let cpu = b"some avg10=2.50 avg60=0 avg300=0 total=1\nfull avg10=1.00 avg60=0 avg300=0 total=1\n";
    let mem = b"some avg10=0.07 avg60=0 avg300=0 total=1\n";
    let s = PsiSnap::read_all(Some(cpu), None, Some(mem));
    assert_eq!((s.cpu_some, s.io_some, s.mem_some), (250, 0, 7));
    let none = PsiSnap::read_all(None, Some(cpu), Some(mem));
    assert_eq!((none.cpu_some, none.io_some, none.mem_some), (0, 0, 0));
}

#[test]
fn tick_scheduler_remainder() {
    assert_eq!(TickScheduler::remainder_ms(120, 500), 380);
    assert_eq!(TickScheduler::remainder_ms(500, 500), 0);
    assert_eq!(TickScheduler::remainder_ms(900, 500), 0);
}
