use linpow::netif::{
    classify, iface_operstate, iface_speed_mbps, read_ethernet, read_iface_type, read_proc_net_dev,
    read_wifi, IfCounters, IfaceEntry, NetState,
};

const NET_DEV: &str = "Inter-|   Receive                                                |  Transmit\n face |bytes    packets errs drop fifo frame compressed multicast|bytes    packets errs drop fifo colls carrier compressed\n    lo: 1000 10 0 0 0 0 0 0 1000 10 0 0 0 0 0 0\n  eth0: 5000 50 0 0 0 0 0 0 7000 70 0 0 0 0 0 0\nwlan0: 300 3 0 0 0 0 0 0 400 4 0 0 0 0 0 0\n short: 1 2 3\n";

fn key(s: &str) -> Vec<char> {
    s.chars().collect()
}

#[test]
fn proc_net_dev_parsing() {
    let t = read_proc_net_dev(NET_DEV);
    assert_eq!(t.len(), 2);
    assert_eq!(t.get(&key("eth0")), Some(IfCounters { rx_bytes: 5000, tx_bytes: 7000 }));
    assert_eq!(t.get(&key("wlan0")), Some(IfCounters { rx_bytes: 300, tx_bytes: 400 }));
    assert_eq!(t.get(&key("lo")), None);
    assert_eq!(read_proc_net_dev("only one line").len(), 0);
}

#[test]
fn net_state_deltas() {
    let mut st = NetState::new();
    let first = read_proc_net_dev(NET_DEV);
    // Nothing committed yet: the whole counters count.
    let tot = st.sample_total_rate(&first);
    assert_eq!(tot, IfCounters { rx_bytes: 5300, tx_bytes: 7400 });
    // An interface unknown to the committed counters has no rate yet.
    assert_eq!(st.sample_iface_rate(&first, "eth0"), IfCounters { rx_bytes: 0, tx_bytes: 0 });
    st.commit(first);
    let later = read_proc_net_dev(&NET_DEV.replace("5000 50", "5600 56").replace("400 4", "450 4"));
    assert_eq!(st.sample_total_rate(&later), IfCounters { rx_bytes: 600, tx_bytes: 50 });
    assert_eq!(st.sample_iface_rate(&later, "eth0"), IfCounters { rx_bytes: 600, tx_bytes: 0 });
    assert_eq!(st.sample_iface_rate(&later, "wlan0"), IfCounters { rx_bytes: 0, tx_bytes: 50 });
    assert_eq!(st.sample_iface_rate(&later, "nope"), IfCounters { rx_bytes: 0, tx_bytes: 0 });
    // Counters that went down count as zero.
    let reset = read_proc_net_dev(&NET_DEV.replace("5000 50", "10 1"));
    assert_eq!(st.sample_iface_rate(&reset, "eth0").rx_bytes, 0);
}

#[test]
fn committed_counters_sample_to_zero() {
    let mut st = NetState::new();
    let c = read_proc_net_dev(NET_DEV);
    st.commit(c.clone());
    assert_eq!(st.sample_total_rate(&c), IfCounters { rx_bytes: 0, tx_bytes: 0 });
}

fn entry(name: &str, state: Option<&str>, wireless: bool, uevent: Option<&str>) -> IfaceEntry {
    IfaceEntry {
        name: name.to_string(),
        operstate: state.map(|s| s.to_string()),
        wireless,
        uevent: uevent.map(|s| s.to_string()),
    }
}

#[test]
fn interface_classification() {
    let es = vec![
        entry("lo", Some("unknown"), false, Some("INTERFACE=lo")),
        entry("docker0", Some("up"), false, Some("DEVTYPE=bridge\nINTERFACE=docker0\n")),
        entry("enp1", Some("down"), false, Some("INTERFACE=enp1")),
        entry("enp2", Some("up\n"), false, None),
        entry("wlp1", Some("down"), true, Some("DEVTYPE=wlan")),
        entry("wlp2", Some("down"), true, Some("DEVTYPE=wlan")),
    ];
    let i = classify(&es);
    assert_eq!(i.ethernet.as_deref(), Some("enp2"));
    assert_eq!(i.wifi.as_deref(), Some("wlp1"));
}

#[test]
fn first_connected_interface_wins() {
    let es = vec![
        entry("enp1", Some("down"), false, None),
        entry("enp2", Some("up"), false, None),
        entry("enp3", Some("up"), false, None),
        entry("wlp1", Some("up"), true, None),
        entry("wlp2", Some("up"), true, None),
    ];
    let i = classify(&es);
    assert_eq!(i.ethernet.as_deref(), Some("enp2"));
    assert_eq!(i.wifi.as_deref(), Some("wlp1"));
    let none = classify(&vec![entry("lo", Some("up"), false, None), entry("br0", Some("up"), false, Some("DEVTYPE=bridge"))]);
    assert_eq!((none.ethernet, none.wifi), (None, None));
}

#[test]
fn interface_attributes() {
    assert_eq!(read_iface_type(&Some("INTERFACE=x\nDEVTYPE=wlan\n".to_string())), Some("wlan".to_string()));
    assert_eq!(read_iface_type(&Some("INTERFACE=x".to_string())), None);
    assert_eq!(read_iface_type(&None), None);
    assert_eq!(iface_operstate(&Some("up\n".to_string())), "up");
    assert_eq!(iface_operstate(&None), "");
    assert_eq!(iface_speed_mbps(&Some("1000\n".to_string())), 1000);
    assert_eq!(iface_speed_mbps(&Some("-1".to_string())), 0);
    assert_eq!(iface_speed_mbps(&None), 0);
    let name = "eth0".to_string();
    let e = read_ethernet(Some(&name), &Some("up".to_string()), &Some("100".to_string()));
    assert!(e.connected);
    assert_eq!((e.interface_name.as_str(), e.link_speed_mbps), ("eth0", 100));
    let none = read_ethernet(None, &None, &None);
    assert!(!none.connected && none.interface_name.is_empty());
    let w = read_wifi(Some(&name), &Some("dormant".to_string()));
    assert!(!w.connected);
}
