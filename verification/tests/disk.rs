use linpow::disk::{block_devices, read_disk_totals, read_one, read_ssd_model, BlockModel, DiskState, DiskStats};

#[test]
fn block_device_filter() {
    let names: Vec<String> = ["nvme0n1", "loop0", "zram0", "dm-1", "md127", "sda", "mmcblk0"].iter().map(|s| s.to_string()).collect();
    assert_eq!(block_devices(&names), vec!["nvme0n1".to_string(), "sda".to_string(), "mmcblk0".to_string()]);
}

#[test]
fn stat_file_parsing() {
    let stat = "  11 0 2048 5 7 0 4096 9 0 0 0\n";
    assert_eq!(read_one(stat), Some(DiskStats { read_bytes: 2048 * 512, write_bytes: 4096 * 512 }));
    assert_eq!(read_one("1 2 3"), None);
    assert_eq!(read_one("1 2 x 4 5 6 7"), None);
    let huge = format!("0 0 {} 0 0 0 1", u64::MAX);
    assert_eq!(read_one(&huge).unwrap().read_bytes, u64::MAX);
}

#[test]
fn disk_totals_saturate() {
    let stats = vec![
        Some("0 0 2 0 0 0 4".to_string()),
        None,
        Some("garbage".to_string()),
        Some("0 0 1 0 0 0 1".to_string()),
    ];
    assert_eq!(read_disk_totals(&stats), DiskStats { read_bytes: 3 * 512, write_bytes: 5 * 512 });
    let big = format!("0 0 {} 0 0 0 0", u64::MAX / 512);
    assert_eq!(read_disk_totals(&vec![Some(big.clone()), Some(big)]).read_bytes, u64::MAX);
}

#[test]
fn disk_state_deltas() {
    let mut st = DiskState::new();
    assert_eq!(st.sample(DiskStats { read_bytes: 100, write_bytes: 200 }), None);
    assert_eq!(st.sample(DiskStats { read_bytes: 150, write_bytes: 190 }), Some(DiskStats { read_bytes: 50, write_bytes: 0 }));
    assert_eq!(st.sample(DiskStats { read_bytes: 150, write_bytes: 190 }), Some(DiskStats { read_bytes: 0, write_bytes: 0 }));
}

fn dev(name: &str, model: Option<&str>) -> BlockModel {
    BlockModel { name: name.to_string(), model: model.map(|s| s.to_string()) }
}

#[test]
fn ssd_model_preference() {
    let devs = vec![dev("sdb", Some("Slow")), dev("sda", Some("SATA One\n")), dev("nvme0n1", Some("  \n")), dev("nvme1n1", Some("Fast NVMe"))];
    assert_eq!(read_ssd_model(&devs), "Fast NVMe");
    let devs2 = vec![dev("mmcblk0", Some("eMMC")), dev("sda", None)];
    assert_eq!(read_ssd_model(&devs2), "eMMC");
    assert_eq!(read_ssd_model(&vec![dev("sda", None)]), "");
}

#[test]
fn consecutive_deltas_add_up() {
    let mut st = DiskState::new();
    let a = DiskStats { read_bytes: 100, write_bytes: 10 };
    let b = DiskStats { read_bytes: 150, write_bytes: 10 };
    let c = DiskStats { read_bytes: 300, write_bytes: 70 };
    assert_eq!(st.sample(a), None);
    let d1 = st.sample(b).unwrap();
    let d2 = st.sample(c).unwrap();
    assert_eq!((d1.read_bytes + d2.read_bytes, d1.write_bytes + d2.write_bytes), (200, 60));
}
