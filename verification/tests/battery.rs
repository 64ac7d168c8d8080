use linpow::battery::{psu_paths_by_type, read_adapter, read_battery, AdapterFiles, BatteryFiles, PowerSupply};

fn s(x: &str) -> Option<String> {
    Some(x.to_string())
}

fn empty_battery() -> BatteryFiles {
    BatteryFiles {
        status: None,
        voltage_now: None,
        power_now: None,
        current_now: None,
        energy_now: None,
        energy_full: None,
        energy_full_design: None,
        charge_now: None,
        charge_full: None,
        charge_full_design: None,
        capacity: None,
        cycle_count: None,
        temp: None,
    }
}

#[test]
fn supplies_by_type() {
    let ps = vec![
        PowerSupply { path: "/ps/AC".to_string(), type_raw: s("Mains\n") },
        PowerSupply { path: "/ps/BAT0".to_string(), type_raw: s("Battery\n") },
        PowerSupply { path: "/ps/hid".to_string(), type_raw: None },
        PowerSupply { path: "/ps/BAT1".to_string(), type_raw: s("Battery") },
    ];
    assert_eq!(psu_paths_by_type(&ps, "Battery"), vec!["/ps/BAT0".to_string(), "/ps/BAT1".to_string()]);
    assert_eq!(psu_paths_by_type(&ps, "Mains"), vec!["/ps/AC".to_string()]);
}

#[test]
fn battery_from_energy_files() {
    let mut f = empty_battery();
    f.status = s("Charging\n");
    f.voltage_now = s("12000000");
    f.power_now = s("-7500000");
    f.energy_now = s("30000000");
    f.energy_full = s("50000000");
    f.capacity = s("60");
    f.cycle_count = s("12");
    f.temp = s("305");
    let b = read_battery(&f);
    assert!(b.charging);
    assert_eq!(b.drain_uw, 7_500_000);
    assert_eq!((b.current_uwh, b.max_uwh, b.design_uwh), (30_000_000, 50_000_000, 50_000_000));
    assert_eq!(b.headroom_uwh, 20_000_000);
    assert_eq!((b.current_capacity_mwh, b.max_capacity_mwh), (30_000, 50_000));
    assert_eq!(b.capacity_pct, Some(60));
    assert_eq!(b.cycle_count, 12);
    assert_eq!(b.temp_decidegrees, Some(305));
}

#[test]
fn battery_from_charge_files() {
    let mut f = empty_battery();
    f.status = s("Discharging");
    f.voltage_now = s("11400000");
    f.charge_now = s("2000000");
    f.charge_full = s("4000000");
    f.charge_full_design = s("4500000");
    let b = read_battery(&f);
    assert!(!b.charging);
    // 11.4 V → scale 11.
    assert_eq!((b.current_uwh, b.max_uwh, b.design_uwh), (22_000_000, 44_000_000, 49_500_000));
    assert_eq!(b.headroom_uwh, 22_000_000);
    // Low voltage falls back to 3.7 V → scale 3.
    f.voltage_now = s("100");
    let b2 = read_battery(&f);
    assert_eq!(b2.current_uwh, 6_000_000);
    assert_eq!(b2.capacity_pct, None);
}

#[test]
fn battery_without_capacity_files() {
    let b = read_battery(&empty_battery());
    assert_eq!((b.current_uwh, b.max_uwh, b.design_uwh), (0, 0, 0));
    assert!(!b.charging);
    assert_eq!(b.current_capacity_mwh, 0);
    let mut f = empty_battery();
    f.energy_now = s("-1500");
    f.energy_full = s("10");
    let b = read_battery(&f);
    assert_eq!(b.current_capacity_mwh, -1);
}

#[test]
fn adapters() {
    let off = AdapterFiles { online: s("0"), input_power_now: None, power_now: None, voltage_now: None, current_now: None };
    let on = AdapterFiles {
        online: s("1\n"),
        input_power_now: None,
        power_now: s("65000000"),
        voltage_now: s("20000000"),
        current_now: s("3250000"),
    };
    assert!(read_adapter(&vec![off.clone()]).is_none());
    let a = read_adapter(&vec![off, on]).unwrap();
    assert_eq!(a.power_uw, 65_000_000);
    assert_eq!((a.voltage_mv, a.current_ma), (20_000, 3_250));
}
