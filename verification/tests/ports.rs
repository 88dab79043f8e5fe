use open_websandbox::ports::{
    check_port, descendant_pids, forwards_header, listening_rows, parse_pid, parse_row,
    parse_socket, process_name, proxy_failed, proxy_url, returns_header, scan_visible_ports,
    socket_pid, stat_ppid, FdLink, Lineage, ListenRow, VisiblePort,
};

const TCP: &str = "  sl  local_address rem_address   st tx_queue rx_queue tr tm->when retrnsmt   uid  timeout inode
   0: 0100007F:22B8 00000000:0000 0A 00000000:00000000 00:00000000 00000000  1000        0 7001 1 0000 100 0 0 10 0
   1: 0100007F:1F90 00000000:0000 0A 00000000:00000000 00:00000000 00000000  1000        0 7002 1 0000 100 0 0 10 0
   2: 0100007F:C350 0100007F:22B8 01 00000000:00000000 00:00000000 00000000  1000        0 7003 1 0000 100 0 0 10 0
";

fn link(pid: u32, target: &str) -> FdLink {
    FdLink {
        pid,
        target: target.to_string(),
    }
}

fn family() -> Vec<Lineage> {
    vec![
        Lineage { pid: 1, ppid: 0 },
        Lineage { pid: 10, ppid: 1 },
        Lineage { pid: 20, ppid: 10 },
        Lineage { pid: 30, ppid: 20 },
        Lineage { pid: 40, ppid: 1 },
    ]
}

#[test]
fn descendants_exclude_self() {
    let d = descendant_pids(10, &family());
    assert!(!d.contains(&10));
    let mut seen = d.clone();
    seen.sort();
    assert_eq!(seen, vec![20, 30]);
    assert!(descendant_pids(99, &family()).is_empty());
}

#[test]
fn listening_rows_are_well_formed() {
    let rows = listening_rows(Some(TCP), None);
    assert_eq!(
        rows,
        vec![
            ListenRow {
                port: 8888,
                uid: 1000,
                inode: 7001
            },
            ListenRow {
                port: 8080,
                uid: 1000,
                inode: 7002
            },
        ]
    );
    for row in rows {
        assert!((1..=65535).contains(&row.port));
    }
    assert!(listening_rows(None, None).is_empty());
    assert_eq!(parse_row("   0: junk"), None);
}

#[test]
fn ports_lists_session_visible_listeners_with_upstream_shape() {
    let rows = listening_rows(Some(TCP), None);
    let comm = |pid: u32| Some(format!("proc{pid}\n"));
    // The runtime's own listener is not that of a descendant.
    let links = vec![link(10, "socket:[7001]"), link(30, "socket:[7002]")];
    let seen = scan_visible_ports(&rows, &links, &family(), 10, &comm);
    assert_eq!(seen.len(), 1);
    assert_eq!(seen[0].port, 8080);
    assert_eq!(seen[0].pid, Some(30));
    assert_eq!(seen[0].process, Some("proc30".to_string()));
    // A process elsewhere on the machine is not seen either.
    let links = vec![link(40, "socket:[7001]"), link(40, "socket:[7002]")];
    assert!(scan_visible_ports(&rows, &links, &family(), 10, &comm).is_empty());
    // By number.
    let links = vec![link(20, "socket:[7001]"), link(30, "socket:[7002]")];
    let seen = scan_visible_ports(&rows, &links, &family(), 10, &comm);
    let ports: Vec<u16> = seen.iter().map(|p| p.port).collect();
    assert_eq!(ports, vec![8080, 8888]);
}

fn visible(port: u16) -> Vec<VisiblePort> {
    vec![VisiblePort {
        port,
        pid: Some(20),
        process: None,
    }]
}

#[test]
fn proxy_rejects_unowned_and_unlistened_ports_with_upstream_404() {
    let err = check_port(9999, &visible(8888)).unwrap_err();
    assert_eq!(err.status(), 404);
    assert_eq!(err.body().detail, "Port not found");
    assert!(check_port(8888, &visible(8888)).is_ok());
}

#[test]
fn proxy_validates_port_range_with_upstream_message() {
    let err = check_port(0, &visible(8888)).unwrap_err();
    assert_eq!(err.status(), 400);
    assert_eq!(err.body().detail, "Port must be between 1 and 65535");
}

#[test]
fn proxy_forwards_to_owned_port_and_strips_authorization() {
    assert_eq!(proxy_url(8888, "", None), "http://localhost:8888/");
    assert_eq!(
        proxy_url(8888, "files/list", Some("directory=.")),
        "http://localhost:8888/files/list?directory=."
    );
    assert_eq!(proxy_url(8888, "a", Some("")), "http://localhost:8888/a");
    assert!(!forwards_header("authorization"));
    assert!(!forwards_header("host"));
    assert!(forwards_header("content-type"));
    assert!(!returns_header("transfer-encoding"));
    assert!(returns_header("content-type"));
}

#[test]
fn proxy_failures() {
    let refused = proxy_failed(8080, false);
    assert_eq!(refused.status(), 502);
    assert_eq!(refused.body().detail, "Connection refused: localhost:8080");
    let late = proxy_failed(8080, true);
    assert_eq!(late.status(), 504);
    assert_eq!(late.body().detail, "Timeout connecting to localhost:8080");
}

#[test]
fn kernel_texts() {
    assert_eq!(parse_socket("socket:[123]"), Some(123));
    assert_eq!(parse_socket("pipe:[123]"), None);
    assert_eq!(parse_socket("socket:[x]"), None);
    assert_eq!(socket_pid(&vec![link(7, "socket:[5]")], 5), Some(7));
    assert_eq!(socket_pid(&vec![link(7, "socket:[5]")], 6), None);
    assert_eq!(parse_pid("4242"), Some(4242));
    assert_eq!(parse_pid("self"), None);
    // The name of a process may hold blanks and parentheses.
    assert_eq!(stat_ppid("20 (a) b) S 10 20 20 0"), Some(10));
    assert_eq!(stat_ppid("garbage"), None);
    assert_eq!(process_name(Some("bash\n")), Some("bash".to_string()));
    assert_eq!(process_name(None), None);
}
