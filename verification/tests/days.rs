use vnstat_dashboard::clock::{
    current_date, current_day, day_from_texts, requested_or, same_date, target_date,
};
use vnstat_dashboard::interface::Devices;
use vnstat_dashboard::vnstat::{
    fetch_vnstat_today_totals, vnstat_probes, vnstat_totals_of_day, VnstatDate, VnstatInterface,
    VnstatJson, VnstatTrafficContainer, VnstatTrafficItem,
};

fn item(year: i32, month: u32, day: Option<u32>, rx: u64, tx: u64) -> VnstatTrafficItem {
    VnstatTrafficItem { date: VnstatDate { year, month, day }, rx, tx }
}

fn iface(name: Option<&str>, days: Option<Vec<VnstatTrafficItem>>) -> VnstatInterface {
    VnstatInterface {
        name: name.map(|s| s.to_string()),
        traffic: Some(VnstatTrafficContainer { day: days }),
    }
}

fn report() -> VnstatJson {
    VnstatJson {
        interfaces: Some(vec![
            VnstatInterface { name: Some("wlp3s0".to_string()), traffic: None },
            iface(Some("docker0"), Some(vec![item(2026, 11, Some(16), 9, 9)])),
            iface(Some("eth0"), None),
            iface(Some("eth1"), Some(vec![item(2026, 11, Some(15), 1, 2)])),
            iface(
                Some("enp7s0"),
                Some(vec![
                    item(2025, 11, Some(16), 3, 3),
                    item(2026, 10, Some(16), 4, 4),
                    item(2026, 11, None, 5, 5),
                    item(2026, 11, Some(16), 600, 700),
                    item(2026, 11, Some(16), 8, 8),
                ]),
            ),
            iface(None, Some(vec![item(2026, 11, Some(16), 10, 11)])),
        ]),
    }
}

#[test]
fn totals_of_the_target() {
    let r = report();
    let d = Devices::new();
    let day = (2026, 11, 16);
    assert_eq!(vnstat_totals_of_day(Some(&r), Some("enp7s0"), &d, day), (600, 700));
    assert_eq!(vnstat_totals_of_day(Some(&r), Some("docker0"), &d, day), (9, 9));
    assert_eq!(vnstat_totals_of_day(Some(&r), Some("eth1"), &d, day), (0, 0));
    assert_eq!(vnstat_totals_of_day(Some(&r), Some("eth1"), &d, (2026, 11, 15)), (1, 2));
    assert_eq!(vnstat_totals_of_day(Some(&r), Some("wlp3s0"), &d, day), (0, 0));
    assert_eq!(vnstat_totals_of_day(Some(&r), Some(""), &d, day), (10, 11));
    assert_eq!(vnstat_totals_of_day(None, Some("enp7s0"), &d, day), (0, 0));
}

#[test]
fn totals_of_the_first_hardware_without_a_target() {
    let r = report();
    let mut d = Devices::new();
    assert_eq!(vnstat_totals_of_day(Some(&r), None, &d, (2026, 11, 16)), (600, 700));
    d.insert("docker0".to_string());
    assert_eq!(vnstat_totals_of_day(Some(&r), None, &d, (2026, 11, 16)), (600, 700));
    let empty = VnstatJson { interfaces: None };
    assert_eq!(vnstat_totals_of_day(Some(&empty), None, &d, (2026, 11, 16)), (0, 0));
}

#[test]
fn reports_name_the_devices_to_look_for() {
    assert_eq!(vnstat_probes(Some(&report())), vec!["wlp3s0", "eth0", "eth1", "enp7s0", ""]);
    assert_eq!(vnstat_probes(None), Vec::<String>::new());
}

#[test]
fn totals_of_the_current_day() {
    let (year, month, day) = current_day();
    let r = VnstatJson {
        interfaces: Some(vec![iface(Some("eth0"), Some(vec![item(year, month, Some(day), 12, 34)]))]),
    };
    let got = fetch_vnstat_today_totals(Some(&r), Some("eth0"), &Devices::new());
    if current_day() == (year, month, day) {
        assert_eq!(got, (12, 34));
    }
    assert_eq!(fetch_vnstat_today_totals(None, None, &Devices::new()), (0, 0));
}

#[test]
fn the_clock_shows_a_calendar_day() {
    let date = current_date();
    let (year, month, day) = current_day();
    assert!(year >= 2024);
    assert!((1..=12).contains(&month) && (1..=31).contains(&day));
    if date == current_date() && current_day() == (year, month, day) {
        assert_eq!(date, format!("{:04}-{:02}-{:02}", year, month, day));
        assert_eq!(date, chrono::Local::now().format("%Y-%m-%d").to_string());
    }
}

#[test]
fn days_are_compared_by_their_texts() {
    let date = current_date();
    assert!(same_date(&date, &date));
    assert!(!same_date("1999-12-31", &date) && !same_date("", &date));
    assert!(!same_date("%Y-%m-%d", &date) && !same_date(&format!("{} ", date), &date));
    assert!(same_date("2026-11-16", "2026-11-16") && !same_date("2026-11-16", "2026-11-17"));
}

#[test]
fn texts_stand_for_days() {
    assert_eq!(day_from_texts("2026", "11", "06"), (2026, 11, 6));
    assert_eq!(day_from_texts("+12026", "01", "31"), (12026, 1, 31));
    assert_eq!(day_from_texts("-0005", "x", ""), (-5, 0, 0));
    assert_eq!(day_from_texts("abc", "-1", "4294967296"), (0, 0, 0));
}

#[test]
fn chrono_writes_years_as_stated() {
    for (year, text) in [(7, "0007"), (2026, "2026"), (9999, "9999"), (12026, "+12026"), (-5, "-0005")] {
        let d = chrono::NaiveDate::from_ymd_opt(year, 3, 9).unwrap();
        assert_eq!(d.format("%Y").to_string(), text);
        assert_eq!(d.format("%Y-%m-%d").to_string(), format!("{}-03-09", text));
        assert_eq!(day_from_texts(text, "03", "09"), (year, 3, 9));
    }
}

#[test]
fn a_request_without_a_day_is_for_today() {
    assert_eq!(target_date("2026-01-02"), "2026-01-02");
    assert_eq!(target_date("junk"), "junk");
    let today = target_date("");
    assert_eq!(today.len(), 10);
    assert_ne!(today, "%Y-%m-%d");
    assert_eq!(requested_or("", "2026-11-16"), "2026-11-16");
    assert_eq!(requested_or("2026-01-02", "2026-11-16"), "2026-01-02");
}
