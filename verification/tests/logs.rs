use vnstat_dashboard::daily_log::{
    book, get_synced_app_log, load_raw_app_log, synced_for, tracked_totals, tracked_totals_fit,
    usage_under, AppNetUsage, DailyNetAppLog, BACKGROUND_APP,
};
use vnstat_dashboard::name_map::NameMap;
use vnstat_dashboard::tracker::{
    app_io, app_io_fits, book_interval, book_interval_fits, record_traffic, shares_of,
    traffic_fits, Interval, Tracker, SERVICES_APP,
};

fn usage(rx: u64, tx: u64) -> AppNetUsage {
    AppNetUsage { rx, tx }
}

fn apps(list: &[(&str, u64, u64)]) -> NameMap<AppNetUsage> {
    let mut m = NameMap::new();
    for (n, rx, tx) in list {
        m.insert(n.to_string(), usage(*rx, *tx));
    }
    m
}

fn log(total_rx: u64, total_tx: u64, list: &[(&str, u64, u64)]) -> DailyNetAppLog {
    DailyNetAppLog {
        date: "2026-11-16".to_string(),
        total_rx,
        total_tx,
        speed_rx: 0,
        speed_tx: 0,
        interface: "enp7s0".to_string(),
        apps: apps(list),
    }
}

fn pairs(m: &NameMap<AppNetUsage>) -> Vec<(String, u64, u64)> {
    m.as_pairs().iter().map(|(n, u)| (n.clone(), u.rx, u.tx)).collect()
}

fn want(list: &[(&str, u64, u64)]) -> Vec<(String, u64, u64)> {
    list.iter().map(|(n, rx, tx)| (n.to_string(), *rx, *tx)).collect()
}

fn samples(list: &[(&str, u64)]) -> Vec<(String, u64)> {
    list.iter().map(|(n, b)| (n.to_string(), *b)).collect()
}

#[test]
fn names_are_kept_in_order() {
    let mut m: NameMap<u64> = NameMap::new();
    let mut std_map = std::collections::BTreeMap::new();
    let names = ["zsh", "a", "ab", "", "Z", "\u{e9}", "\u{1f310}", "\u{ffff}", "a", "ab c", "aB"];
    for (i, n) in names.iter().enumerate() {
        m.insert(n.to_string(), i as u64);
        std_map.insert(n.to_string(), i as u64);
    }
    let want: Vec<(String, u64)> = std_map.into_iter().collect();
    assert_eq!(m.as_pairs(), &want);
    assert_eq!(m.get("a"), Some(8));
    assert_eq!(m.get("b"), None);
    assert_eq!(m.get(""), Some(3));
}

#[test]
fn a_fresh_log_is_empty() {
    let l = load_raw_app_log(None, "2026-11-16", Some("wlp3s0"));
    assert_eq!(l.date, "2026-11-16");
    assert_eq!((l.total_rx, l.total_tx, l.speed_rx, l.speed_tx), (0, 0, 0, 0));
    assert_eq!(l.interface, "wlp3s0");
    assert!(l.apps.as_pairs().is_empty());
    assert_eq!(load_raw_app_log(None, "x", None).interface, "enp7s0");
}

#[test]
fn a_stored_log_is_taken_as_it_is() {
    let l = load_raw_app_log(Some(log(5, 6, &[("curl", 1, 2)])), "other", Some("wlp3s0"));
    assert_eq!(l.date, "2026-11-16");
    assert_eq!((l.total_rx, l.total_tx), (5, 6));
    assert_eq!(l.interface, "enp7s0");
    assert_eq!(pairs(&l.apps), want(&[("curl", 1, 2)]));
}

#[test]
fn booking_and_adding_up() {
    let mut m = apps(&[("b", 1, 2)]);
    book(&mut m, "a", 10, 20);
    book(&mut m, "b", 5, 6);
    assert_eq!(pairs(&m), want(&[("a", 10, 20), ("b", 6, 8)]));
    assert_eq!(tracked_totals(&m), (16, 28));
    assert_eq!(usage_under(&m, "b"), usage(6, 8));
    assert_eq!(usage_under(&m, "c"), AppNetUsage::default());
    assert_eq!(AppNetUsage::default(), usage(0, 0));
    assert!(tracked_totals_fit(&m));
    assert!(!tracked_totals_fit(&apps(&[("a", u64::MAX, 0), ("b", 1, 0)])));
    assert!(!tracked_totals_fit(&apps(&[("a", 0, u64::MAX), ("b", 0, 1)])));
}

#[test]
fn a_former_day_is_only_given_speeds_and_an_interface() {
    let mut l = log(100, 200, &[("curl", 1, 2)]);
    l.interface = String::new();
    let l = get_synced_app_log(l, (7, 8), Some("wlp3s0"), None);
    assert_eq!((l.speed_rx, l.speed_tx), (7, 8));
    assert_eq!((l.total_rx, l.total_tx), (100, 200));
    assert_eq!(l.interface, "wlp3s0");
    assert_eq!(pairs(&l.apps), want(&[("curl", 1, 2)]));
}

#[test]
fn an_interface_that_is_known_stays() {
    let l = get_synced_app_log(log(0, 0, &[]), (0, 0), Some("wlp3s0"), None);
    assert_eq!(l.interface, "enp7s0");
    let mut m = log(0, 0, &[]);
    m.interface = String::new();
    assert_eq!(get_synced_app_log(m, (0, 0), None, None).interface, "enp7s0");
}

#[test]
fn what_is_not_booked_becomes_background_traffic() {
    let l = get_synced_app_log(log(100, 50, &[("curl", 40, 30)]), (0, 0), None, Some((20000, 60)));
    assert_eq!((l.total_rx, l.total_tx), (20000, 60));
    assert_eq!(pairs(&l.apps), want(&[(BACKGROUND_APP, 19960, 30), ("curl", 40, 30)]));
    assert_eq!(tracked_totals(&l.apps), (20000, 60));
    assert_eq!(BACKGROUND_APP, "System & Background Traffic");
}

#[test]
fn little_that_is_not_booked_is_left_alone() {
    let l = get_synced_app_log(log(0, 0, &[("curl", 1, 1)]), (0, 0), None, Some((10241, 10241)));
    assert_eq!((l.total_rx, l.total_tx), (10241, 10241));
    assert_eq!(pairs(&l.apps), want(&[("curl", 1, 1)]));
    let l = get_synced_app_log(log(0, 0, &[("curl", 1, 1)]), (0, 0), None, Some((1, 10242)));
    assert_eq!(pairs(&l.apps), want(&[(BACKGROUND_APP, 0, 10241), ("curl", 1, 1)]));
}

#[test]
fn totals_cover_the_log_vnstat_and_the_applications() {
    let l = get_synced_app_log(log(9, 1, &[("a", 3, 7), ("b", 4, 0)]), (0, 0), None, Some((8, 5)));
    assert_eq!((l.total_rx, l.total_tx), (9, 7));
    let l = get_synced_app_log(log(1, 1, &[("a", 30, 70)]), (0, 0), None, Some((8, 5)));
    assert_eq!((l.total_rx, l.total_tx), (30, 70));
}

#[test]
fn the_largest_totals_can_be_booked() {
    let l = log(u64::MAX, 0, &[(BACKGROUND_APP, 5, 0), ("a", 1, 0)]);
    let l = get_synced_app_log(l, (0, 0), None, Some((0, 0)));
    assert_eq!(pairs(&l.apps), want(&[(BACKGROUND_APP, u64::MAX - 1, 0), ("a", 1, 0)]));
}

#[test]
fn showing_a_log_again_gives_the_same() {
    let make = || log(100, 50, &[("curl", 40, 30)]);
    let once = get_synced_app_log(make(), (3, 4), None, Some((50000, 60000)));
    let seen = (once.total_rx, once.total_tx, pairs(&once.apps), once.interface.clone());
    let twice = get_synced_app_log(once, (3, 4), None, Some((50000, 60000)));
    assert_eq!((twice.total_rx, twice.total_tx, pairs(&twice.apps), twice.interface), seen);
}

#[test]
fn counters_are_measured_by_their_growth() {
    let mut t = Tracker::new(100, 200);
    assert_eq!(t.measure(150, 260), Interval { rx: 50, tx: 60 });
    assert_eq!(t.measure(150, 260), Interval { rx: 0, tx: 0 });
    assert_eq!(t.measure(10, 300), Interval { rx: 0, tx: 40 });
    assert_eq!(t.measure(15, 301), Interval { rx: 5, tx: 1 });
    assert!(Interval { rx: 0, tx: 1 }.has_traffic());
    assert!(Interval { rx: 1, tx: 0 }.has_traffic());
    assert!(!Interval { rx: 0, tx: 0 }.has_traffic());
}

#[test]
fn samples_are_added_up_by_application() {
    let s = samples(&[("b", 5), ("a", 1), ("b", 7)]);
    assert!(app_io_fits(&s));
    assert_eq!(app_io(&s).as_pairs(), &samples(&[("a", 1), ("b", 12)]));
    assert!(!app_io_fits(&samples(&[("b", u64::MAX), ("a", 3), ("b", 1)])));
    assert!(app_io_fits(&samples(&[("b", u64::MAX), ("a", u64::MAX)])));
}

#[test]
fn growth_by_application() {
    let mut t = Tracker::new(0, 0);
    let first = t.take_io_deltas(app_io(&samples(&[("a", 10), ("b", 20), ("c", 0)])));
    assert_eq!(first.apps.as_pairs(), &samples(&[("a", 10), ("b", 20)]));
    assert_eq!(first.total, 30);
    let second = t.take_io_deltas(app_io(&samples(&[("a", 5), ("b", 20), ("c", 4), ("d", 1)])));
    assert_eq!(second.apps.as_pairs(), &samples(&[("c", 4), ("d", 1)]));
    assert_eq!(second.total, 5);
    let third = t.take_io_deltas(app_io(&samples(&[("a", 6)])));
    assert_eq!(third.total, 1);
    let fourth = t.take_io_deltas(app_io(&samples(&[("a", 6), ("b", 20)])));
    assert_eq!(fourth.apps.as_pairs(), &samples(&[("b", 20)]));
    assert!(!t.io_deltas_fit(&app_io(&samples(&[("x", u64::MAX), ("y", 1)]))));
    assert!(t.io_deltas_fit(&app_io(&samples(&[("x", u64::MAX), ("b", 20)]))));
}

#[test]
fn shares_are_booked_under_their_applications() {
    let mut l = log(100, 200, &[("curl", 1, 2)]);
    let shares = apps(&[("curl", 10, 20), ("firefox", 30, 40)]);
    let i = Interval { rx: 41, tx: 59 };
    assert!(traffic_fits(&l, i, 7, &shares));
    record_traffic(&mut l, i, 7, &shares);
    assert_eq!((l.total_rx, l.total_tx), (141, 259));
    assert_eq!(pairs(&l.apps), want(&[("curl", 11, 22), ("firefox", 30, 40)]));
    assert_eq!(l.date, "2026-11-16");
}

#[test]
fn traffic_without_an_application_is_booked_as_services() {
    let mut l = log(100, 200, &[("curl", 1, 2)]);
    record_traffic(&mut l, Interval { rx: 5, tx: 6 }, 0, &NameMap::new());
    record_traffic(&mut l, Interval { rx: 1, tx: 0 }, 0, &NameMap::new());
    assert_eq!(pairs(&l.apps), want(&[("System / Services", 6, 6), ("curl", 1, 2)]));
    assert_eq!(SERVICES_APP, "System / Services");
    assert_eq!((l.total_rx, l.total_tx), (106, 206));
}

#[test]
fn traffic_beyond_the_counters_is_noticed() {
    let none = NameMap::new();
    let one = Interval { rx: 1, tx: 1 };
    assert!(!traffic_fits(&log(u64::MAX, 0, &[]), one, 0, &none));
    assert!(!traffic_fits(&log(0, u64::MAX, &[]), one, 0, &none));
    assert!(!traffic_fits(&log(0, 0, &[(SERVICES_APP, u64::MAX, 0)]), one, 0, &none));
    assert!(traffic_fits(&log(0, 0, &[(SERVICES_APP, u64::MAX, 0)]), one, 1, &none));
    let share = apps(&[("a", 1, 0), ("b", 0, 1)]);
    assert!(!traffic_fits(&log(0, 0, &[("b", 0, u64::MAX)]), one, 1, &share));
    assert!(traffic_fits(&log(0, 0, &[("b", u64::MAX, 0)]), one, 1, &share));
}

#[test]
fn reported_totals_count_for_the_current_day_alone() {
    let make = || log(100, 50, &[("curl", 40, 30)]);
    let l = synced_for(make(), "2026-11-16", "2026-11-16", (7, 8), None, (20000, 60));
    assert_eq!((l.total_rx, l.total_tx, l.speed_rx, l.speed_tx), (20000, 60, 7, 8));
    assert_eq!(pairs(&l.apps), want(&[(BACKGROUND_APP, 19960, 30), ("curl", 40, 30)]));
    let l = synced_for(make(), "2026-11-16", "2026-11-17", (7, 8), None, (20000, 60));
    assert_eq!((l.total_rx, l.total_tx, l.speed_rx, l.speed_tx), (100, 50, 7, 8));
    assert_eq!(pairs(&l.apps), want(&[("curl", 40, 30)]));
}

#[test]
fn shares_go_to_the_applications_that_have_grown() {
    let mut t = Tracker::new(0, 0);
    t.take_io_deltas(app_io(&samples(&[("still", 9)])));
    let deltas = t.take_io_deltas(app_io(&samples(&[("still", 9), ("b", 1), ("a", 2)])));
    let shares = shares_of(&deltas, &vec![usage(5, 6), usage(7, 8)]);
    assert_eq!(pairs(&shares), want(&[("a", 5, 6), ("b", 7, 8)]));
    let mut l = log(0, 0, &[("still", 3, 4)]);
    record_traffic(&mut l, Interval { rx: 12, tx: 14 }, deltas.total, &shares);
    assert_eq!(pairs(&l.apps), want(&[("a", 5, 6), ("b", 7, 8), ("still", 3, 4)]));
}

#[test]
fn totals_grow_by_what_the_counters_have_grown() {
    let mut t = Tracker::new(1000, 500);
    let mut l = log(3, 4, &[]);
    for (rx, tx) in [(1000, 500), (1010, 500), (1010, 777), (2000, 900)] {
        let interval = t.measure(rx, tx);
        if interval.has_traffic() {
            record_traffic(&mut l, interval, 0, &NameMap::new());
        }
    }
    assert_eq!((l.total_rx, l.total_tx), (1003, 404));
    assert_eq!(pairs(&l.apps), want(&[(SERVICES_APP, 1000, 400)]));
}

#[test]
fn a_tick_is_measured_taken_and_booked() {
    let mut t = Tracker::new(100, 200);
    let mut l = log(1, 2, &[("curl", 5, 5)]);
    let interval = t.measure(130, 240);
    assert!(interval.has_traffic());
    let deltas = t.take_io_deltas(app_io(&samples(&[("curl", 3), ("ssh", 1), ("idle", 0)])));
    let parts = vec![usage(23, 30), usage(8, 10)];
    assert!(book_interval_fits(&l, interval, &deltas, &parts));
    book_interval(&mut l, interval, &deltas, &parts);
    assert_eq!((l.total_rx, l.total_tx), (31, 42));
    assert_eq!(pairs(&l.apps), want(&[("curl", 28, 35), ("ssh", 8, 10)]));
    assert_eq!((t.prev_rx, t.prev_tx), (130, 240));

    let interval = t.measure(135, 240);
    let deltas = t.take_io_deltas(app_io(&samples(&[("curl", 3)])));
    assert!(book_interval_fits(&l, interval, &deltas, &vec![]));
    book_interval(&mut l, interval, &deltas, &vec![]);
    assert_eq!(pairs(&l.apps), want(&[(SERVICES_APP, 5, 0), ("curl", 28, 35), ("ssh", 8, 10)]));
    assert!(!book_interval_fits(&log(u64::MAX, 0, &[]), interval, &deltas, &vec![]));
}
