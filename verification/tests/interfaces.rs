use vnstat_dashboard::interface::{
    default_interface_probes, device_path, get_default_interface, is_physical_interface,
    names_to_probe, Devices, NetEntry,
};
use vnstat_dashboard::net_dev::{get_net_dev_bytes, net_dev_bytes_fit, net_dev_probes};

const HEADING: &str = "Iface\tDestination\tGateway \tFlags\tRefCnt\tUse\tMetric\tMask\n";

const NET_DEV: &str = "Inter-|   Receive                                                |  Transmit
 face |bytes    packets errs drop fifo frame compressed multicast|bytes    packets errs drop
    lo:  500       5    0    0    0     0          0         0      500       5    0    0
enp7s0: 1000      10    0    0    0     0          0         0     2000      20    0    0
wlp3s0:   30       1    0    0    0     0          0         0       40       1    0    0
docker0: 9        1    0    0    0     0          0         0        9       1    0    0
 odd0:77 1 0 0 0 0 0 0 88
";

fn devices(names: &[&str]) -> Devices {
    let mut d = Devices::new();
    for n in names {
        d.insert(n.to_string());
    }
    d
}

fn entry(name: &str, operstate: Option<&str>) -> NetEntry {
    NetEntry { name: name.to_string(), operstate: operstate.map(|s| s.to_string()) }
}

fn route(lines: &[&str]) -> String {
    let mut r = HEADING.to_string();
    for l in lines {
        r.push_str(l);
        r.push('\n');
    }
    r
}

#[test]
fn virtual_names_are_never_hardware() {
    let names = [
        "lo", "lo0", "br-1a2b", "docker0", "veth12", "virbr0", "tun0", "tap1", "wg0",
        "CloudflareWARP", "warp0",
    ];
    let d = devices(&names);
    for n in names {
        assert!(!is_physical_interface(n, &d), "{}", n);
        assert!(!is_physical_interface(n, &Devices::new()), "{}", n);
    }
}

#[test]
fn hardware_is_known_by_name_or_device() {
    let none = Devices::new();
    for n in ["enp7s0", "wlp3s0", "eth0", "wlan0", "  eth0\t"] {
        assert!(is_physical_interface(n, &none), "{}", n);
    }
    assert!(!is_physical_interface("usb0", &none));
    assert!(!is_physical_interface("br0", &none));
    assert!(is_physical_interface("usb0", &devices(&["usb0"])));
    assert!(is_physical_interface(" usb0 ", &devices(&["usb0"])));
    assert!(!is_physical_interface("usb0", &devices(&["usb1"])));
    assert!(!is_physical_interface("", &none));
}

#[test]
fn device_paths() {
    assert_eq!(device_path(" enp7s0 "), "/sys/class/net/enp7s0/device");
}

#[test]
fn hardware_default_route_wins_over_others() {
    let text = route(&[
        "tun0\t00000000\t01\t0003\t0",
        "eth9\t0000A8C0\t00\t0001\t0",
        "enp7s0\t00000000\t01\t0003\t0",
        "wlp3s0\t00000000\t01\t0003\t0",
    ]);
    let r = get_default_interface(Some(&text), &vec![], &Devices::new());
    assert_eq!(r.as_deref(), Some("enp7s0"));
}

#[test]
fn first_usable_default_route_stands_in_for_hardware() {
    let text = route(&[
        "lo 00000000 01 0003",
        "docker0 00000000 01 0003",
        "br-9 00000000 01 0003",
        "tun0 00000000 01 0003",
        "wg0 00000000 01 0003",
    ]);
    let up = vec![entry("eth0", Some("up\n"))];
    let r = get_default_interface(Some(&text), &up, &Devices::new());
    assert_eq!(r.as_deref(), Some("tun0"));
}

#[test]
fn short_lines_and_the_heading_are_no_routes() {
    let text = "eth0 00000000 01 0003\neth1 00000000 01\nusb0 00000000 01 0003";
    assert_eq!(
        get_default_interface(Some(text), &vec![], &Devices::new()).as_deref(),
        Some("usb0")
    );
    assert_eq!(get_default_interface(Some(""), &vec![], &Devices::new()), None);
}

#[test]
fn without_routes_the_first_hardware_that_is_up() {
    let entries = vec![
        entry("lo", Some("up")),
        entry("eth0", Some("down\n")),
        entry("eth1", None),
        entry("usb0", Some("up\n")),
        entry("wlan0", Some(" up\n")),
    ];
    let none = Devices::new();
    assert_eq!(get_default_interface(None, &entries, &none).as_deref(), Some("wlan0"));
    let usb = devices(&["usb0"]);
    assert_eq!(get_default_interface(None, &entries, &usb).as_deref(), Some("usb0"));
    assert_eq!(
        get_default_interface(Some(HEADING), &entries, &usb).as_deref(),
        Some("usb0")
    );
    assert_eq!(get_default_interface(None, &vec![], &usb), None);
}

#[test]
fn names_to_probe_leave_virtual_ones_out() {
    let names = vec![" usb0 ".to_string(), "lo".to_string(), "eth0".to_string()];
    assert_eq!(names_to_probe(&names), vec!["usb0", "eth0"]);
    let text = route(&["usb0 00000000 01 0003", "tun0 00000000 01 0003"]);
    let entries = vec![entry("eth0", Some("up")), entry("eth1", Some("down"))];
    assert_eq!(default_interface_probes(Some(&text), &entries), vec!["usb0", "eth0"]);
    assert_eq!(default_interface_probes(None, &vec![]), Vec::<String>::new());
}

#[test]
fn devices_that_were_not_probed_change_nothing() {
    let text = route(&["usb0 00000000 01 0003", "eth0 00000000 01 0003"]);
    let entries: Vec<NetEntry> = vec![];
    let probed = default_interface_probes(Some(&text), &entries);
    assert_eq!(probed, vec!["usb0", "eth0"]);
    let a = get_default_interface(Some(&text), &entries, &devices(&["usb0"]));
    let b = get_default_interface(Some(&text), &entries, &devices(&["usb0", "usb7", "tun3"]));
    assert_eq!(a.as_deref(), Some("usb0"));
    assert_eq!(a, b);
}

#[test]
fn counters_of_the_target() {
    let none = Devices::new();
    assert!(net_dev_bytes_fit(Some(NET_DEV), Some("enp7s0"), &none));
    assert_eq!(get_net_dev_bytes(Some(NET_DEV), Some("enp7s0"), &none), (1000, 2000));
    assert_eq!(get_net_dev_bytes(Some(NET_DEV), Some("odd0"), &none), (77, 88));
    assert_eq!(get_net_dev_bytes(Some(NET_DEV), Some("lo"), &none), (500, 500));
    assert_eq!(get_net_dev_bytes(Some(NET_DEV), Some("eth5"), &none), (0, 0));
    assert_eq!(get_net_dev_bytes(None, Some("enp7s0"), &none), (0, 0));
}

#[test]
fn counters_of_all_hardware_without_a_target() {
    assert_eq!(get_net_dev_bytes(Some(NET_DEV), None, &Devices::new()), (1030, 2040));
    assert_eq!(get_net_dev_bytes(Some(NET_DEV), None, &devices(&["odd0"])), (1107, 2128));
}

#[test]
fn lines_that_cannot_be_read_count_nothing() {
    let d = Devices::new();
    assert_eq!(get_net_dev_bytes(Some("eth0: 1 2 3 4 5 6 7 8"), Some("eth0"), &d), (0, 0));
    assert_eq!(get_net_dev_bytes(Some("eth0: x 2 3 4 5 6 7 8 9"), Some("eth0"), &d), (0, 0));
    assert_eq!(get_net_dev_bytes(Some("eth0: 1 2 3 4 5 6 7 8 -9"), Some("eth0"), &d), (0, 0));
    assert_eq!(get_net_dev_bytes(Some("eth0 1 2 3 4 5 6 7 8 9"), Some("eth0"), &d), (0, 0));
    assert_eq!(get_net_dev_bytes(Some("eth0: 1 2 3 4 5 6 7 8 9"), Some("eth0"), &d), (1, 9));
}

#[test]
fn sums_beyond_the_counter_are_noticed() {
    let text = "eth0: 18446744073709551615 0 0 0 0 0 0 0 1\neth0: 1 0 0 0 0 0 0 0 1\n";
    assert!(!net_dev_bytes_fit(Some(text), Some("eth0"), &Devices::new()));
    let text = "eth0: 18446744073709551614 0 0 0 0 0 0 0 1\neth0: 1 0 0 0 0 0 0 0 1\n";
    assert!(net_dev_bytes_fit(Some(text), Some("eth0"), &Devices::new()));
    assert_eq!(
        get_net_dev_bytes(Some(text), Some("eth0"), &Devices::new()),
        (18446744073709551615, 2)
    );
    assert!(net_dev_bytes_fit(None, None, &Devices::new()));
}

#[test]
fn counters_name_the_devices_to_look_for() {
    assert_eq!(net_dev_probes(Some(NET_DEV)), vec!["enp7s0", "wlp3s0", "odd0"]);
    assert_eq!(net_dev_probes(None), Vec::<String>::new());
}
