use linpow::cpufreq::CpuTopology;
use linpow::hwmon::{
    base62_char, coretemp_key, enumerate, iter_temps, read_fans, read_temp_input,
    read_temperatures, FanDevice, FanInput, HwmonEntry, HwmonTemps, TempInput,
};
use linpow::table::NameTable;

#[test]
fn base62_basic() {
    assert_eq!(base62_char(0), Some('0'));
    assert_eq!(base62_char(9), Some('9'));
    assert_eq!(base62_char(10), Some('a'));
    assert_eq!(base62_char(35), Some('z'));
    assert_eq!(base62_char(36), Some('A'));
    assert_eq!(base62_char(61), Some('Z'));
    assert_eq!(base62_char(62), None);
}

#[test]
fn coretemp_key_hybrid() {
    let topo = CpuTopology {
        all: (0..16).collect(),
        pcpus: (0..6).collect(),
        ecpus: (6..14).collect(),
    };
    let (k, c) = coretemp_key("Core 0", &topo).unwrap();
    assert_eq!(c, "CPU");
    assert_eq!(k, "Tp00");

    let (k, _) = coretemp_key("Core 5", &topo).unwrap();
    assert_eq!(k, "Tp05");

    let (k, _) = coretemp_key("Core 6", &topo).unwrap();
    assert_eq!(k, "Te00");
}

fn flat_topo(n: u32) -> CpuTopology {
    CpuTopology { all: (0..n).collect(), pcpus: Vec::new(), ecpus: Vec::new() }
}

#[test]
fn coretemp_key_non_hybrid_and_unknown() {
    let topo = flat_topo(12);
    assert_eq!(coretemp_key("Core 11", &topo).unwrap().0, "Tp0b");
    assert!(coretemp_key("Core 12", &topo).is_none());
    assert!(coretemp_key("Package id 0", &topo).is_none());
    assert!(coretemp_key("Core x", &topo).is_none());
    assert!(coretemp_key("core 1", &topo).is_none());
    // Positions past 61 have no base-62 digit.
    let big = flat_topo(100);
    assert_eq!(coretemp_key("Core 61", &big).unwrap().0, "Tp0Z");
    assert!(coretemp_key("Core 62", &big).is_none());
}

#[test]
fn enumerate_skips_nameless() {
    let entries = vec![
        HwmonEntry { path: "/h/hwmon0".to_string(), name_raw: Some("coretemp\n".to_string()) },
        HwmonEntry { path: "/h/hwmon1".to_string(), name_raw: Some("  \n".to_string()) },
        HwmonEntry { path: "/h/hwmon2".to_string(), name_raw: None },
        HwmonEntry { path: "/h/hwmon3".to_string(), name_raw: Some("nvme".to_string()) },
    ];
    let d = enumerate(&entries);
    assert_eq!(d.len(), 2);
    assert_eq!(d[0].name, "coretemp");
    assert_eq!(d[0].path, "/h/hwmon0");
    assert_eq!(d[1].name, "nvme");
}

fn input(index: u32, raw: Option<&str>, label: Option<&str>) -> TempInput {
    TempInput { index, raw: raw.map(|s| s.to_string()), label: label.map(|s| s.to_string()) }
}

#[test]
fn temp_input_parsing() {
    assert_eq!(read_temp_input(&input(1, Some("45000\n"), Some("Core 0\n"))), Some(("Core 0".to_string(), 45000)));
    assert_eq!(read_temp_input(&input(1, Some("-500"), None)), Some((String::new(), -500)));
    assert_eq!(read_temp_input(&input(1, Some("hot"), Some("x"))), None);
    assert_eq!(read_temp_input(&input(1, None, Some("x"))), None);
    let all = iter_temps(&vec![input(1, Some("1000"), None), input(2, Some("bad"), None), input(3, Some("3000"), Some("L"))]);
    assert_eq!(all, vec![(1, String::new(), 1000), (3, "L".to_string(), 3000)]);
}

#[test]
fn temperatures_are_classified_per_driver() {
    let topo = flat_topo(4);
    let devices = vec![
        HwmonTemps {
            name: "coretemp".to_string(),
            temps: vec![
                input(1, Some("50000"), Some("Package id 0")),
                input(2, Some("45000"), Some("Core 1")),
                input(3, Some("44000"), Some("Core 9")),
            ],
        },
        HwmonTemps { name: "nvme".to_string(), temps: vec![input(1, Some("38000"), Some("Composite")), input(2, Some("39000"), None)] },
        HwmonTemps { name: "iwlwifi_1".to_string(), temps: vec![input(1, Some("41000"), Some("ignored"))] },
        HwmonTemps { name: "thinkpad".to_string(), temps: vec![input(1, Some("40000"), None), input(3, Some("42000"), Some("GPU"))] },
        HwmonTemps { name: "acpitz".to_string(), temps: vec![input(1, Some("27800"), None)] },
        HwmonTemps { name: "k10temp".to_string(), temps: vec![input(1, Some("60000"), Some("Tdie"))] },
        HwmonTemps { name: "BAT0".to_string(), temps: vec![input(2, Some("30000"), None)] },
    ];
    let r = read_temperatures(&topo, &devices);
    let got: Vec<(String, String, i64)> =
        r.into_iter().map(|t| (t.key, t.category, t.millicelsius)).collect();
    let want: Vec<(&str, &str, i64)> = vec![
        ("Tp00", "CPU", 50000),
        ("Tp01", "CPU", 45000),
        ("Composite", "SSD", 38000),
        ("nvme2", "SSD", 39000),
        ("WiFi1", "WiFi", 41000),
        ("ThinkPad1", "Other", 40000),
        ("GPU", "Other", 42000),
        ("acpitz1", "Chassis", 27800),
        ("Tp00", "CPU", 60000),
        ("BAT02", "Other", 30000),
    ];
    let want: Vec<(String, String, i64)> =
        want.into_iter().map(|(a, b, c)| (a.to_string(), b.to_string(), c)).collect();
    assert_eq!(got, want);
}

fn fan(index: u32, raw: Option<&str>, label: Option<&str>) -> FanInput {
    FanInput { index, raw: raw.map(|s| s.to_string()), label: label.map(|s| s.to_string()) }
}

#[test]
fn fans_track_the_largest_speed_seen() {
    let mut seen: NameTable<u64> = NameTable::new();
    let devs = vec![FanDevice {
        name: "thinkpad".to_string(),
        fans: vec![fan(1, Some("2000"), None), fan(2, Some("-5"), None), fan(3, Some("100"), Some("Aux"))],
    }];
    let r = read_fans(&devs, &mut seen);
    assert_eq!(r.len(), 3);
    assert_eq!((r[0].id, r[0].name.as_str(), r[0].rpm, r[0].max_rpm), (0, "Fan", 2000, 2000));
    assert_eq!((r[1].id, r[1].name.as_str(), r[1].rpm, r[1].max_rpm), (1, "Fan 2", 0, 1));
    assert_eq!((r[2].id, r[2].name.as_str(), r[2].rpm, r[2].max_rpm), (2, "Aux", 100, 100));
    // Slower now: the maximum is remembered.
    let devs2 = vec![FanDevice { name: "thinkpad".to_string(), fans: vec![fan(1, Some("1500"), None)] }];
    let r2 = read_fans(&devs2, &mut seen);
    assert_eq!((r2[0].rpm, r2[0].max_rpm), (1500, 2000));
    assert_eq!(seen.get(&"thinkpad:1".chars().collect()), Some(2000));
    // Faster: the maximum follows.
    let devs3 = vec![FanDevice { name: "thinkpad".to_string(), fans: vec![fan(1, Some("2500"), None), fan(4, None, None)] }];
    let r3 = read_fans(&devs3, &mut seen);
    assert_eq!((r3[0].rpm, r3[0].max_rpm), (2500, 2500));
    assert_eq!((r3[1].name.as_str(), r3[1].rpm, r3[1].max_rpm), ("Fan 4", 0, 1));
    // A fan that never spun: remembered maximum 0, shown maximum 1; fans not
    // read keep their maxima.
    assert_eq!(seen.get(&"thinkpad:4".chars().collect()), Some(0));
    assert_eq!(seen.get(&"thinkpad:3".chars().collect()), Some(100));
}
