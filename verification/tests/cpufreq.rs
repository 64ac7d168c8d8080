use linpow::cpufreq::{parse_cpu_list, read_cpu_freq_mhz, read_cpu_list, read_proc_stat, CpuTicks, CpuTopology};

#[test]
fn cpu_lists() {
    assert_eq!(parse_cpu_list("0-3,8,10-11"), vec![0, 1, 2, 3, 8, 10, 11]);
    // Parts are read independently and kept in order.
    assert_eq!(parse_cpu_list("0-3,8,10-11"), [parse_cpu_list("0-3"), parse_cpu_list("8,10-11")].concat());
    assert_eq!(parse_cpu_list(",x"), [parse_cpu_list(""), parse_cpu_list("x")].concat());
    assert_eq!(parse_cpu_list(""), Vec::<u32>::new());
    assert_eq!(parse_cpu_list(" 4 , 2-2 ,,x,5-3,7-y"), vec![4, 2]);
    assert_eq!(parse_cpu_list("0 - 1"), Vec::<u32>::new());
    assert_eq!(read_cpu_list(Some("0-1\n")), Some(vec![0, 1]));
    assert_eq!(read_cpu_list(None), None);
}

#[test]
fn topology_detection() {
    let t = CpuTopology::detect(Some("0-15\n"), Some("0-5\n"), Some("6-13\n"));
    assert_eq!(t.all.len(), 16);
    assert!(t.is_hybrid());
    let u = CpuTopology::detect(Some("0-3\n"), None, None);
    assert!(!u.is_hybrid());
    assert_eq!(u.all, vec![0, 1, 2, 3]);
}

#[test]
fn tick_sums() {
    let t = CpuTicks { user: 1, nice: 2, system: 3, idle: 4, iowait: 5, irq: 6, softirq: 7, steal: 8 };
    assert_eq!(t.total(), 36);
    assert_eq!(t.idle_all(), 9);
    let big = CpuTicks { user: u64::MAX, nice: 1, system: 0, idle: u64::MAX, iowait: 1, irq: 0, softirq: 0, steal: 0 };
    assert_eq!(big.total(), u64::MAX);
    assert_eq!(big.idle_all(), u64::MAX);
    assert!(big.idle_all() <= big.total());
}

#[test]
fn proc_stat_parsing() {
    let text = "cpu  10 20 30 40 50 60 70 80 90 100\ncpu0 1 2 3 4 5 6 7 8\ncpu1 9 x\nintr 5\ncpufreq 1\ncpu0 2 2 2 2 2 2 2 2\n";
    let (overall, per) = read_proc_stat(text).unwrap();
    assert_eq!(overall.user, 10);
    assert_eq!(overall.steal, 80);
    assert_eq!(per.len(), 2);
    assert_eq!(per[&0].user, 2);
    assert_eq!(per[&1], CpuTicks { user: 9, nice: 0, system: 0, idle: 0, iowait: 0, irq: 0, softirq: 0, steal: 0 });
    let (o2, p2) = read_proc_stat("").unwrap();
    assert_eq!(o2, CpuTicks::default());
    assert!(p2.is_empty());
}

#[test]
fn cpu_frequency() {
    assert_eq!(read_cpu_freq_mhz(Some("2400000\n")), Some(2400));
    assert_eq!(read_cpu_freq_mhz(Some("999")), Some(0));
    assert_eq!(read_cpu_freq_mhz(Some("n/a")), None);
}
