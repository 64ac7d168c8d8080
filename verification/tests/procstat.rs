use linpow::procstat::{
    enumerate_pids, pid_stat_is_malformed, read_pid_io, read_pid_render_ns, read_pid_rss_bytes,
    read_pid_stat, PidSample, ProcStatState,
};

#[test]
fn pid_enumeration() {
    let names: Vec<String> = ["1", "self", "42", "-3", "99999999999", "sys"].iter().map(|s| s.to_string()).collect();
    assert_eq!(enumerate_pids(&names), vec![1, 42, -3]);
}

#[test]
fn pid_stat_parsing() {
    let stat = "1234 (my (weird) proc) S 1 1234 1234 0 -1 4194560 100 0 0 0 250 75 0 0 20 0 1 0 100 0 0\n";
    assert_eq!(read_pid_stat(stat), Some(("my (weird) proc".to_string(), 325)));
    assert_eq!(read_pid_stat("no parens"), None);
    assert_eq!(read_pid_stat("1 (a) S 1 2"), None);
    assert!(!pid_stat_is_malformed(stat));
    assert!(pid_stat_is_malformed("1 (a)"));
    assert!(pid_stat_is_malformed("1 )a( b"));
}

#[test]
fn pid_files() {
    assert_eq!(read_pid_io("rchar: 5\nread_bytes: 4096\nwrite_bytes: x\ncancelled_write_bytes: 9\n"), (4096, 0));
    assert_eq!(read_pid_io(""), (0, 0));
    assert_eq!(read_pid_rss_bytes("1000 250 10 1 0 50 0\n", 4096), Some(250 * 4096));
    assert_eq!(read_pid_rss_bytes("1000 250\n", -1), Some(250 * 4096));
    assert_eq!(read_pid_rss_bytes("1000 250\n", 16384), Some(250 * 16384));
    assert_eq!(read_pid_rss_bytes("1000\n", 4096), None);
    let fdinfos = vec![
        "pos: 0\nflags: 02\ndrm-driver: i915\ndrm-engine-render: 1500 ns\ndrm-engine-video: 7 ns\n".to_string(),
        "pos: 0\ndrm-engine-render: 99 ns\n".to_string(),
        "drm-driver: xe\ndrm-engine-render:   500 ns\ndrm-engine-render: junk\n".to_string(),
    ];
    assert_eq!(read_pid_render_ns(&fdinfos), 2000);
}

fn sample(pid: i32, name: &str, ticks: u64) -> PidSample {
    PidSample { pid, name: name.to_string(), ticks, render_ns: 0, disk_read: 1, disk_write: 2, rss_bytes: 3 }
}

#[test]
fn tick_bookkeeping() {
    let mut st = ProcStatState::new();
    let r1 = st.sample(1000, 50, &vec![sample(1, "init", 10), sample(2, "sh", 5)]).unwrap();
    assert_eq!(r1.pp0_delta_uj, None);
    assert_eq!(r1.total_tick_delta, 0);
    assert_eq!(r1.attributions.iter().map(|a| (a.pid, a.ticks)).collect::<Vec<_>>(), vec![(1, 0), (2, 0)]);
    assert_eq!(r1.rows.len(), 2);

    let r2 = st.sample(1600, 40, &vec![sample(1, "init", 16), sample(3, "new", 4)]).unwrap();
    assert_eq!(r2.pp0_delta_uj, Some(600));
    assert_eq!(r2.pp1_delta_uj, Some(0));
    assert_eq!(r2.total_tick_delta, 6);
    assert_eq!(r2.attributions.iter().map(|a| (a.pid, a.ticks)).collect::<Vec<_>>(), vec![(1, 6), (3, 0)]);
    // The shares add up to the total that the energy delta is divided by.
    assert_eq!(r2.attributions.iter().map(|a| a.ticks).sum::<u64>(), r2.total_tick_delta);
    let rows: Vec<(i32, bool, u64)> = r2.rows.iter().map(|r| (r.pid, r.alive, r.tick_delta)).collect();
    assert_eq!(rows, vec![(1, true, 6), (2, false, 0), (3, true, 0)]);
    assert!(r2.dropped.is_empty());

    // pid 2 stays missing: dropped once it has been gone for more than 30 ticks.
    let mut drops = Vec::new();
    for t in 0..40 {
        let r = st.sample(1600, 40, &vec![sample(1, "init", 16)]).unwrap();
        for p in &r.dropped {
            drops.push((t, *p));
        }
    }
    assert_eq!(drops, vec![(29, 2), (30, 3)]);
}

#[test]
fn self_pid_appears_in_enumeration() {
    // The entries of a `/proc` listing; the running process is 4242.
    let names: Vec<String> = ["1", "2", "acpi", "4242", "self", "thread-self", "uptime"]
        .iter()
        .map(|s| s.to_string())
        .collect();
    let pids = enumerate_pids(&names);
    let me = 4242;
    assert!(pids.contains(&me), "expected own pid {} in list", me);
}

#[test]
fn read_own_stat_returns_comm_and_ticks() {
    let text = "4242 (cargo-test) R 4200 4242 4200 34816 4242 4194304 1530 0 0 0 12 3 0 0 20 0 2 0 98765 10485760 2048 18446744073709551615 1 1 0 0 0 0 0 4096 17663 0 0 0 17 3 0 0 0 0 0\n";
    assert!(!pid_stat_is_malformed(text));
    let s = read_pid_stat(text);
    assert!(s.is_some());
    let (comm, ticks) = s.unwrap();
    assert!(!comm.is_empty());
    assert_eq!((comm.as_str(), ticks), ("cargo-test", 15));
}
