use vnstat_dashboard::proc_io::{get_proc_io_bytes, proc_io_bytes_fit, proc_io_path};
use vnstat_dashboard::sockets::{get_active_net_app_pids, read_socket_table};

fn pids(table: &str) -> Vec<(u32, String)> {
    let read: Vec<(u32, String)> = read_socket_table(Some(table)).into_iter().collect();
    let got: Vec<(u32, String)> =
        get_active_net_app_pids(Some(table.as_bytes())).into_iter().collect();
    assert_eq!(got, read);
    got
}

fn names(list: &[(u32, &str)]) -> Vec<(u32, String)> {
    list.iter().map(|(p, n)| (*p, n.to_string())).collect()
}

#[test]
fn socket_table_names_processes() {
    let table = "Netid State Recv-Q Send-Q Local Address:Port Peer Address:Port Process\n\
        tcp ESTAB 0 0 10.0.0.2:51000 1.2.3.4:443 users:((\"firefox\",pid=4242,fd=88))\n\
        tcp ESTAB 0 0 10.0.0.2:51001 1.2.3.4:443 users:((\"curl\",pid=77,fd=3),(\"bash\",pid=12,fd=3))\n\
        udp UNCONN 0 0 0.0.0.0:68 0.0.0.0:*\n";
    assert_eq!(pids(table), names(&[(12, "bash"), (77, "curl"), (4242, "firefox")]));
}

#[test]
fn the_dashboard_its_tool_paths_and_nothing_are_left_out() {
    let table = "users:((\"vnstat-gui\",pid=1,fd=1),(\"ss\",pid=2,fd=1),(\"a/b\",pid=3),(\"  \",pid=4),(\" ok \",pid=5))";
    assert_eq!(pids(table), names(&[(5, "ok")]));
}

#[test]
fn lines_without_users_do_not_count() {
    assert_eq!(pids("x (\"curl\",pid=77)\n"), names(&[]));
    assert_eq!(pids("users: (\"curl\",pid=77)"), names(&[(77, "curl")]));
    assert!(get_active_net_app_pids(None).is_empty());
    assert!(read_socket_table(None).is_empty());
}

#[test]
fn bytes_that_are_no_text_are_replaced() {
    let table = b"users:((\"a\xffb\",pid=7)) \xc3\xa9";
    let got: Vec<(u32, String)> =
        get_active_net_app_pids(Some(&table[..])).into_iter().collect();
    assert_eq!(got, names(&[(7, "a\u{fffd}b")]));
}

#[test]
fn numbers_that_cannot_be_read_are_skipped() {
    assert_eq!(pids("users:((\"a\",pid=,fd=1))"), names(&[]));
    assert_eq!(pids("users:((\"a\",pid=4294967296))"), names(&[]));
    assert_eq!(pids("users:((\"a\",pid=4294967295))"), names(&[(4294967295, "a")]));
    assert_eq!(pids("users:((\"a\",fd=1))"), names(&[]));
    assert_eq!(pids("users:((\"a"), names(&[]));
    assert_eq!(pids("users:((\"a\",pid=7"), names(&[(7, "a")]));
}

#[test]
fn a_name_takes_the_next_number_of_its_line() {
    assert_eq!(pids("users:((\"a\",x),(\"b\",pid=9))"), names(&[(9, "b")]));
    assert_eq!(pids("users:((\"a\",pid=9))\nusers:((\"c\",pid=9))"), names(&[(9, "c")]));
}

#[test]
fn process_counters() {
    let io = "rchar: 1\nwchar: 2\nsyscr: 3\nsyscw: 4\nread_bytes: 4096\nwrite_bytes: 1024\ncancelled_write_bytes: 7\n";
    assert!(proc_io_bytes_fit(Some(io)));
    assert_eq!(get_proc_io_bytes(Some(io)), 5120);
    assert_eq!(get_proc_io_bytes(None), 0);
    assert_eq!(get_proc_io_bytes(Some("")), 0);
}

#[test]
fn odd_process_counters() {
    assert_eq!(get_proc_io_bytes(Some("read_bytes: 1\nread_bytes: 2\n")), 2);
    assert_eq!(get_proc_io_bytes(Some("read_bytes: 1\nread_bytes: x\n")), 0);
    assert_eq!(get_proc_io_bytes(Some("read_bytes: 1\nread_bytes:5\n")), 1);
    assert_eq!(get_proc_io_bytes(Some("read_bytes:a 3\n read_bytes: 9\n")), 3);
    assert!(!proc_io_bytes_fit(Some("read_bytes: 18446744073709551615\nwrite_bytes: 1")));
    assert!(proc_io_bytes_fit(Some("read_bytes: 18446744073709551615\nwrite_bytes: 0")));
    assert!(proc_io_bytes_fit(None));
}

#[test]
fn process_counter_paths() {
    assert_eq!(proc_io_path(0), "/proc/0/io");
    assert_eq!(proc_io_path(4294967295), "/proc/4294967295/io");
}
