use linpow::powermetrics::{collect_link_counters, compute_disk_deltas, compute_net_deltas, read_proc_net_counters, sum_disk_statistics};
use linpow::table::NameTable;

fn table(v: &[(&str, (u64, u64))]) -> NameTable<(u64, u64)> {
    let mut t = NameTable::new();
    for (k, c) in v {
        t.insert(k.to_string(), *c);
    }
    t
}

#[test]
fn compute_net_rates_aggregates_interfaces() {
    let prev = table(&[("en0", (100, 200)), ("en1", (50, 100))]);
    let cur = table(&[("en0", (300, 500)), ("en1", (100, 160))]);
    let d = compute_net_deltas(&prev, &cur, None);
    assert_eq!(d, Some((250, 360)));
    let (i, o) = d.unwrap();
    assert_eq!(i as f64 / 2.0, 125.0);
    assert_eq!(o as f64 / 2.0, 180.0);
}

#[test]
fn compute_net_rates_iface_filters_target_only() {
    let prev = table(&[("en0", (100, 200)), ("en1", (10, 20))]);
    let cur = table(&[("en0", (160, 260)), ("en1", (110, 220))]);
    let d = compute_net_deltas(&prev, &cur, Some("en0"));
    assert_eq!(d, Some((60, 60)));
    let (i, o) = d.unwrap();
    assert_eq!(i as f64 / 2.0, 30.0);
    assert_eq!(o as f64 / 2.0, 30.0);
    // No previous snapshot: nothing moved.
    assert_eq!(compute_net_deltas(&table(&[]), &cur, None), Some((0, 0)));
    // New interfaces are not counted; counters that went down count as zero.
    let cur2 = table(&[("en0", (50, 260)), ("en9", (1000, 1000))]);
    assert_eq!(compute_net_deltas(&prev, &cur2, None), Some((0, 60)));
    let huge = table(&[("a", (0, 0)), ("b", (0, 0))]);
    let huge_cur = table(&[("a", (u64::MAX, 0)), ("b", (1, 0))]);
    assert_eq!(compute_net_deltas(&huge, &huge_cur, None), None);
}

#[test]
fn compute_disk_rates_handles_regular_and_zero_delta() {
    let (r, w) = compute_disk_deltas((100, 200), (300, 500));
    assert_eq!((r, w), (200, 300));
    assert_eq!(r as f64 / 2.0, 100.0);
    assert_eq!(w as f64 / 2.0, 150.0);
    let (r0, w0) = compute_disk_deltas((300, 500), (100, 200));
    assert_eq!((r0, w0), (0, 0));
    assert_eq!(r0 as f64 / 2.0, 0.0);
    assert_eq!(w0 as f64 / 2.0, 0.0);
}

#[test]
fn link_counters_keep_maxima() {
    let es = vec![
        ("en0".to_string(), 10u32, 20u32),
        ("lo0".to_string(), 99, 99),
        ("en0".to_string(), 5, 30),
        ("utun0".to_string(), 0, 0),
        ("en1".to_string(), 1, 0),
    ];
    let t = collect_link_counters(&es);
    assert_eq!(t.len(), 2);
    assert_eq!(t.get(&"en0".chars().collect()), Some((10, 30)));
    assert_eq!(t.get(&"en1".chars().collect()), Some((1, 0)));
}

#[test]
fn disk_statistics_sum() {
    assert_eq!(sum_disk_statistics(&vec![(Some(10), None), (Some(5), Some(7))]), Some((15, 7)));
    assert_eq!(sum_disk_statistics(&vec![(Some(-1), None), (Some(1), None)]), None);
}

#[test]
fn nettop_listing() {
    let out = "time,,interface,state,bytes_in,bytes_out,\n\
12:00:00.1,Safari.123,,,100,200,\n\
12:00:00.1,Safari.123,,,5,5,\n\
12:00:00.1,kernel_task.0,,,100,200,\n\
12:00:00.1,bad.12a,,,100,200,\n\
12:00:00.1,.77,,,100,200,\n\
12:00:00.1,Mail.4.5,,,0,0,\n\
12:00:00.1,Mail.45,,,x,3,\n\
short,line\n";
    let m = read_proc_net_counters(out).unwrap();
    assert_eq!(m.len(), 2);
    assert_eq!(m[&123], (105, 205));
    assert_eq!(m[&45], (0, 3));
    let overflow = format!("h\na,p.1,,,{},0,\na,p.1,,,1,0,\n", u64::MAX);
    assert_eq!(read_proc_net_counters(&overflow), None);
    assert!(read_proc_net_counters("").unwrap().is_empty());
}
