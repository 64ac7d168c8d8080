use linpow::rapl::{
    energy_delta_uj, enumerate, interval_between, read_energy, DomainKind, DomainState, Interval, PowercapPackage, PowercapZone,
    Sample,
};

#[test]
fn classify_names() {
    assert_eq!(DomainKind::classify("package-0"), DomainKind::Package);
    assert_eq!(DomainKind::classify("core"), DomainKind::Cores);
    assert_eq!(DomainKind::classify("uncore"), DomainKind::GpuUncore);
    assert_eq!(DomainKind::classify("dram"), DomainKind::Dram);
    assert_eq!(DomainKind::classify("psys"), DomainKind::Psys);
    assert_eq!(DomainKind::classify("foobar"), DomainKind::Other);
}

#[test]
fn classify_ignores_case_and_knows_aliases() {
    assert_eq!(DomainKind::classify("PACKAGE-1"), DomainKind::Package);
    assert_eq!(DomainKind::classify("PP0"), DomainKind::Cores);
    assert_eq!(DomainKind::classify("pp1"), DomainKind::GpuUncore);
    assert_eq!(DomainKind::classify("Dram"), DomainKind::Dram);
    assert_eq!(DomainKind::classify("core "), DomainKind::Other);
    assert_eq!(DomainKind::classify(""), DomainKind::Other);
}

#[test]
fn energy_delta_without_wrap() {
    assert_eq!(energy_delta_uj(1_000_000, 2_000_000, 100_000_000), 1_000_000);
    assert_eq!(energy_delta_uj(5, 5, 0), 0);
}

#[test]
fn energy_delta_with_wrap() {
    // cur < prev: wrapped; delta = (max - prev) + cur.
    assert_eq!(energy_delta_uj(99_500_000, 500_000, 100_000_000), 1_000_000);
    // Unknown range: nothing counted.
    assert_eq!(energy_delta_uj(10, 5, 0), 0);
    assert_eq!(energy_delta_uj(u64::MAX, 0, u64::MAX), 0);
}

fn zone(dir: &str, name: &str, max: &str) -> PowercapZone {
    PowercapZone {
        dir_name: dir.to_string(),
        path: format!("/p/{}", dir),
        name_raw: Some(format!("{}\n", name)),
        max_raw: Some(max.to_string()),
    }
}

#[test]
fn enumerate_keeps_rapl_zones_in_order() {
    let pkgs = vec![
        PowercapPackage {
            zone: zone("intel-rapl:0", "package-0", "262143328850"),
            subzones: vec![zone("intel-rapl:0:0", "core", "1000"), zone("power", "x", "1"), zone("intel-rapl:0:1", "uncore", "oops")],
        },
        PowercapPackage { zone: zone("intel-rapl-mmio:0", "package-0", "1"), subzones: vec![] },
        PowercapPackage { zone: zone("intel-rapl:1", "psys", "7"), subzones: vec![] },
    ];
    let d = enumerate(&pkgs);
    let got: Vec<(String, DomainKind, u64)> = d.into_iter().map(|d| (d.path, d.kind, d.max_energy_uj)).collect();
    assert_eq!(
        got,
        vec![
            ("/p/intel-rapl:0".to_string(), DomainKind::Package, 262143328850),
            ("/p/intel-rapl:0:0".to_string(), DomainKind::Cores, 1000),
            ("/p/intel-rapl:0:1".to_string(), DomainKind::GpuUncore, 0),
            ("/p/intel-rapl:1".to_string(), DomainKind::Psys, 7),
        ]
    );
}

#[test]
fn energy_counter_reading() {
    assert_eq!(read_energy(Some("123456\n")), Some(123456));
    assert_eq!(read_energy(Some("")), None);
    assert_eq!(read_energy(None), None);
}

fn watts(i: Interval) -> f64 {
    (i.energy_uj as f64 / 1_000_000.0) / (i.elapsed_ns as f64 / 1_000_000_000.0)
}

#[test]
fn no_wrap() {
    let prev = Sample { energy_uj: 1_000_000, at: Some(5_000) };
    let i = interval_between(prev, 2_000_000, 5_000 + 1_000_000_000, 100_000_000).unwrap();
    assert_eq!(i, Interval { energy_uj: 1_000_000, elapsed_ns: 1_000_000_000 });
    let w = watts(i);
    assert!((w - 1.0).abs() < 1e-3, "{w}");
}

#[test]
fn wrap_handled() {
    let prev = Sample { energy_uj: 99_500_000, at: Some(0) };
    // cur < prev: wrapped; delta = (max - prev) + cur = 500_000 + 500_000 = 1_000_000 µJ.
    let i = interval_between(prev, 500_000, 1_000_000_000, 100_000_000).unwrap();
    assert_eq!(i.energy_uj, 1_000_000);
    let w = watts(i);
    assert!((w - 1.0).abs() < 1e-3, "{w}");
}

#[test]
fn interval_needs_a_previous_reading_and_elapsed_time() {
    assert_eq!(interval_between(Sample { energy_uj: 1, at: None }, 5, 10, 0), None);
    assert_eq!(interval_between(Sample { energy_uj: 1, at: Some(10) }, 5, 10, 0), None);
    assert_eq!(interval_between(Sample { energy_uj: 1, at: Some(10) }, 5, 9, 0), None);
}

#[test]
fn domain_state_ticks() {
    let mut st = DomainState::default();
    assert_eq!(st.tick(Some(100), 1_000, 0), None);
    assert_eq!(st.last, Sample { energy_uj: 100, at: Some(1_000) });
    // An unreadable counter changes nothing.
    assert_eq!(st.tick(None, 2_000, 0), None);
    assert_eq!(st.last, Sample { energy_uj: 100, at: Some(1_000) });
    assert_eq!(st.tick(Some(350), 3_000, 0), Some(Interval { energy_uj: 250, elapsed_ns: 2_000 }));
    // A counter that went down with an unknown range counts nothing.
    assert_eq!(st.tick(Some(10), 4_000, 0), Some(Interval { energy_uj: 0, elapsed_ns: 1_000 }));
    assert_eq!(st.last, Sample { energy_uj: 10, at: Some(4_000) });
}
