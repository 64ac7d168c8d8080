use linpow::caps::{probe_perf_paranoid, probe_rapl, summary};
use linpow::display::{
    pick_backlight, read_display, read_edid_geometry, read_keyboard, read_level, read_primary_refresh_hz, DisplayReading,
    DrmConnector, EdidGeometry, EdidPick, LedCandidate, Level, LevelFiles,
};
use linpow::igpu::{pick_card, read, DrmCard, GpuFiles, GpuInfo};
use linpow::meminfo::read_mem_used_total;
use linpow::metrics::{avg_freq_mhz, cluster_cpus, core_name};
use linpow::cpufreq::CpuTopology;

#[test]
fn capability_summary() {
    assert_eq!(probe_rapl(&vec![]), "absent");
    assert_eq!(probe_rapl(&vec![Some(1), None]), "denied");
    assert_eq!(probe_rapl(&vec![Some(1), Some(2)]), "ok");
    assert_eq!(probe_perf_paranoid(Some("2\n")), "denied(perf_event_paranoid=2)");
    assert_eq!(probe_perf_paranoid(Some("-1")), "ok");
    assert_eq!(probe_perf_paranoid(Some("1")), "ok");
    assert_eq!(probe_perf_paranoid(None), "absent");
    assert_eq!(
        summary("ok", "denied(perf_event_paranoid=2)", true, false, false),
        "linpow: rapl=ok i915-pmu=denied(perf_event_paranoid=2) nvme-smart=denied all-procs=denied(non-root)"
    );
    assert_eq!(summary("absent", "ok", false, false, true), "linpow: rapl=absent i915-pmu=ok nvme-smart=absent all-procs=ok");
    assert_eq!(summary("ok", "ok", true, true, true), "linpow: rapl=ok i915-pmu=ok nvme-smart=ok all-procs=ok");
}

#[test]
fn meminfo_parsing() {
    let text = "MemTotal:       16000000 kB\nMemFree:         1000000 kB\nMemAvailable:    6000000 kB\n";
    assert_eq!(read_mem_used_total(text), Some((10_000_000, 16)));
    let no_avail = "MemTotal: 2097152 kB\nMemFree: 97152 kB\n";
    assert_eq!(read_mem_used_total(no_avail), Some((2_000_000, 2)));
    assert_eq!(read_mem_used_total("MemTotal: 1048577 kB\n"), Some((1048577, 2)));
    assert_eq!(read_mem_used_total("MemFree: 1 kB\n"), None);
}

fn names(v: &[&str]) -> Vec<String> {
    v.iter().map(|s| s.to_string()).collect()
}

#[test]
fn backlight_choice() {
    assert_eq!(pick_backlight(&names(&["acpi_video0", "intel_backlight"])), Some("intel_backlight".to_string()));
    assert_eq!(pick_backlight(&names(&["nv_backlight", "acpi_video1", "acpi_video0"])), Some("acpi_video0".to_string()));
    assert_eq!(pick_backlight(&names(&[])), None);
}

fn edid(len: usize) -> Vec<u8> {
    let mut e = vec![0u8; len];
    if len >= 72 {
        // 1920x1200, 302 x 189 mm.
        e[56] = 0x80;
        e[58] = 0x70;
        e[59] = 0xB0;
        e[61] = 0x40;
        e[66] = 0x2E;
        e[67] = 0xBD;
        e[68] = 0x10;
    }
    e
}

fn conn(name: &str, status: &str, e: Option<Vec<u8>>) -> DrmConnector {
    DrmConnector { name: name.to_string(), status: Some(status.to_string()), edid: e }
}

#[test]
fn edid_search() {
    let cs = vec![
        conn("card0", "connected", Some(edid(128))),
        conn("card0-DP-1", "disconnected\n", Some(edid(128))),
        conn("card0-eDP-1", "connected\n", Some(edid(10))),
        conn("card1-eDP-1", "connected\n", Some(edid(128))),
    ];
    assert_eq!(
        read_edid_geometry(&cs),
        EdidPick::Found(EdidGeometry { h_active: 1920, v_active: 1200, w_mm: 302, h_mm: 189 })
    );
    assert_eq!(read_edid_geometry(&vec![conn("card0-eDP-1", "connected", None)]), EdidPick::Unreadable);
    assert_eq!(read_edid_geometry(&vec![conn("card0-eDP-1", "connected", Some(edid(70)))]), EdidPick::Truncated);
    assert_eq!(read_edid_geometry(&vec![]), EdidPick::NotFound);
    assert_eq!(read_primary_refresh_hz(&vec![None, Some("connected\n".to_string())]), 60);
    assert_eq!(read_primary_refresh_hz(&vec![Some("disconnected".to_string())]), 0);
    assert_eq!(read_primary_refresh_hz(&vec![]), 0);
}

#[test]
fn gpu_card_and_frequency() {
    let cards = vec![
        DrmCard { name: "card1-eDP-1".to_string(), has_gt_cur_freq: true, has_gt0_cur_freq: false },
        DrmCard { name: "card2".to_string(), has_gt_cur_freq: false, has_gt0_cur_freq: true },
        DrmCard { name: "card1".to_string(), has_gt_cur_freq: true, has_gt0_cur_freq: false },
        DrmCard { name: "card0".to_string(), has_gt_cur_freq: false, has_gt0_cur_freq: false },
        DrmCard { name: "renderD128".to_string(), has_gt_cur_freq: true, has_gt0_cur_freq: true },
    ];
    assert_eq!(pick_card(&cards), Some(2));
    assert_eq!(pick_card(&vec![]), None);
    let f = GpuFiles {
        gt_cur_freq_mhz: None,
        gt0_cur_freq: Some("350\n".to_string()),
        gt_max_freq_mhz: Some("bad".to_string()),
        gt_rp0_freq_mhz: Some("1300".to_string()),
        gt0_max_freq: Some("1400".to_string()),
    };
    let g = read(Some(&f));
    assert_eq!((g.freq_mhz, g.max_freq_mhz, g.util_device), (350, 1300, 0));
    assert_eq!(read(None), GpuInfo::default());
}

#[test]
fn sampler_helpers() {
    assert_eq!(avg_freq_mhz(&vec![]), 0);
    assert_eq!(avg_freq_mhz(&vec![None, None]), 0);
    assert_eq!(avg_freq_mhz(&vec![Some(1000), None, Some(2001)]), 1500);
    assert_eq!(avg_freq_mhz(&vec![Some(u32::MAX), Some(u32::MAX)]), u32::MAX);
    let hybrid = CpuTopology { all: (0..4).collect(), pcpus: vec![0, 1], ecpus: vec![2, 3] };
    assert_eq!(cluster_cpus(&hybrid), (vec![0, 1], vec![2, 3]));
    let flat = CpuTopology { all: (0..4).collect(), pcpus: vec![], ecpus: vec![2] };
    assert_eq!(cluster_cpus(&flat), (vec![0, 1, 2, 3], vec![]));
    assert_eq!(core_name("ECPU", 12), "ECPU12");
}

fn files(cur: Option<&str>, max: Option<&str>) -> LevelFiles {
    LevelFiles { brightness: cur.map(|s| s.to_string()), max_brightness: max.map(|s| s.to_string()) }
}

#[test]
fn backlight_levels() {
    assert_eq!(read_level(&files(Some("120\n"), Some("255\n"))), Level { cur: 120, max: 255 });
    // Unreadable or unparsable: brightness 0, maximum 1.
    assert_eq!(read_level(&files(None, Some("x"))), Level { cur: 0, max: 1 });
    assert_eq!(read_level(&files(Some("-3"), Some("0"))), Level { cur: -3, max: 0 });
}

#[test]
fn display_reading() {
    let bl = files(Some("50"), Some("100"));
    let cs = vec![conn("card1-eDP-1", "connected\n", Some(edid(128)))];
    let statuses = vec![Some("connected".to_string())];
    assert_eq!(
        read_display(Some(&bl), &cs, &statuses),
        Some(DisplayReading {
            level: Level { cur: 50, max: 100 },
            geometry: Some(EdidGeometry { h_active: 1920, v_active: 1200, w_mm: 302, h_mm: 189 }),
            refresh_hz: 60,
        })
    );
    let none = vec![conn("card1-eDP-1", "connected", None)];
    assert_eq!(
        read_display(Some(&bl), &none, &vec![]),
        Some(DisplayReading { level: Level { cur: 50, max: 100 }, geometry: None, refresh_hz: 0 })
    );
    assert_eq!(read_display(None, &cs, &statuses), None);
}

#[test]
fn keyboard_backlight() {
    let cands = vec![
        LedCandidate { exists: false, files: files(Some("9"), Some("9")) },
        LedCandidate { exists: true, files: files(Some("1"), Some("2")) },
        LedCandidate { exists: true, files: files(Some("2"), Some("2")) },
    ];
    assert_eq!(read_keyboard(&cands), Some(Level { cur: 1, max: 2 }));
    assert_eq!(read_keyboard(&vec![LedCandidate { exists: false, files: files(None, None) }]), None);
    assert_eq!(read_keyboard(&vec![]), None);
}
