use poros::cli::TargetUrl;
use poros::discovery::fallback_scan;
use poros::discovery::proc_scan;
use poros::discovery::proc_scan::ProcEntry;
use poros::discovery::{
    discover_target, probe_request, required_tools_missing, split_host_port, wait_for_target,
    Listener, ProcessInfo, Wait,
};
use poros::ip::IpAddr;

fn strings(items: &[&str]) -> Vec<String> {
    items.iter().map(|item| item.to_string()).collect()
}

const TABLE: &str = "  sl  local_address rem_address   st tx_queue rx_queue tr tm->when retrnsmt   uid  timeout inode\n   0: 0100007F:0BB8 00000000:0000 0A 00000000:00000000 00:00000000 00000000  1000        0 111 1\n   1: 00000000:1F90 00000000:0000 0A 00000000:00000000 00:00000000 00000000  1000        0 222 1\n   2: 0100007F:0050 00000000:0000 01 00000000:00000000 00:00000000 00000000  1000        0 333 1\n   3: 0101A8C0:0051 00000000:0000 0A 00000000:00000000 00:00000000 00000000  1000        0 444 1\n";
const TABLE6: &str = "head\n   0: 00000000000000000000000001000000:0BB9 00000000000000000000000000000000:0000 0A 0:0 0:0 0 1000 0 555 1\n";

fn links() -> Vec<(u32, String)> {
    vec![
        (7, "socket:[111]".to_string()),
        (8, "socket:[111]".to_string()),
        (8, "socket:[222]".to_string()),
        (8, "/dev/null".to_string()),
        (9, "socket:[444]".to_string()),
        (9, "socket:[555]".to_string()),
        (9, "socket:[x]".to_string()),
    ]
}

#[test]
fn the_only_listener_is_the_target() {
    assert_eq!(discover_target(Vec::new()), Ok(None));
    assert_eq!(
        discover_target(strings(&["[::1]:3000"])),
        Ok(Some(TargetUrl {
            host: "::1".to_string(),
            port: 3000
        }))
    );
    assert_eq!(
        discover_target(strings(&["b:2", "a:1"])),
        Err("multiple child HTTP listeners found: [\"a:1\", \"b:2\"]; select one with --target".to_string())
    );
    assert_eq!(
        discover_target(strings(&["nothing"])),
        Err("invalid listener address \"nothing\"".to_string())
    );
}

#[test]
fn listener_addresses_are_split() {
    assert_eq!(
        split_host_port("127.0.0.1:80"),
        Ok(("127.0.0.1".to_string(), 80))
    );
    assert_eq!(
        split_host_port("[::1]:70000"),
        Ok(("::1".to_string(), 70000))
    );
    for bad in ["[::1", "[::1]80", "x"] {
        assert_eq!(
            split_host_port(bad),
            Err(format!("invalid listener address {bad:?}"))
        );
    }
    for bad in ["a:b", "[::1]:", "a:4294967296"] {
        assert_eq!(
            split_host_port(bad),
            Err(format!("invalid listener port {bad:?}"))
        );
    }
}

#[test]
fn waiting_for_a_target() {
    let target = TargetUrl {
        host: "localhost".to_string(),
        port: 1,
    };
    assert!(matches!(
        wait_for_target(Ok(Some(target)), 9, 5, true),
        Wait::Found(_)
    ));
    assert!(matches!(
        wait_for_target(Err("two".to_string()), 0, 5, false),
        Wait::Failed(error) if error == "two"
    ));
    assert!(matches!(
        wait_for_target(Ok(None), 5, 5, false),
        Wait::GiveUp
    ));
    assert!(matches!(wait_for_target(Ok(None), 0, 5, true), Wait::GiveUp));
    assert!(matches!(
        wait_for_target(Ok(None), 0, 5, false),
        Wait::Sleep(5)
    ));
    assert!(matches!(
        wait_for_target(Ok(None), 0, 1_000_000_000, false),
        Wait::Sleep(150_000_000)
    ));
}

#[test]
fn tools_and_probes() {
    assert_eq!(required_tools_missing(true, &[]), None);
    assert_eq!(required_tools_missing(false, &[false, true]), None);
    assert_eq!(
        required_tools_missing(false, &[false]),
        Some("lsof".to_string())
    );
    assert_eq!(
        probe_request("127.0.0.1:80"),
        b"GET / HTTP/1.1\r\nHost: 127.0.0.1:80\r\nConnection: close\r\n\r\n"
    );
}

#[test]
fn stat_lines_are_read_behind_the_name() {
    assert_eq!(
        proc_scan::stat_fields("42 (a) b) (c) S 7 40 0 0"),
        Some((42, 7, 40))
    );
    for bad in ["", "42 a S 7 40", "42 (a) S 7", "x (a) S 7 40", ") S 7 40"] {
        assert_eq!(proc_scan::stat_fields(bad), None, "{bad}");
    }
    assert_eq!(
        proc_scan::proc_pids(&strings(&["1", "self", "42", "-3"])),
        vec![1, 42]
    );
}

#[test]
fn groups_and_descendants_are_owned() {
    let stats = strings(&[
        "10 (root) S 1 10",
        "11 (child) S 10 10",
        "30 (grandchild) S 20 30",
        "20 (detached) S 11 20",
        "40 (other) S 1 40",
        "41 (late) S 30 41",
        "broken",
    ]);
    assert_eq!(
        proc_scan::owned_processes(10, &stats),
        vec![10, 11, 20, 30, 41]
    );
    assert_eq!(proc_scan::owned_processes(99, &stats), Vec::<u32>::new());
    let replaced = strings(&["5 (a) S 1 5", "5 (a) S 1 6"]);
    assert_eq!(proc_scan::owned_processes(6, &replaced), vec![5]);
}

#[test]
fn processes_are_described() {
    let entry = |pid: u32, stat: Option<&str>| ProcEntry {
        pid,
        stat: stat.map(|text| text.to_string()),
        comm: Some("node\n".to_string()),
        cmdline: Some(b"/bin/node\0--x\0\0\xff\0".to_vec()),
    };
    let found = proc_scan::process_table(&vec![
        entry(5, Some("5 (node) S 1 5")),
        entry(6, None),
        entry(7, Some("7 (node) S -1 7")),
        ProcEntry {
            comm: None,
            cmdline: None,
            ..entry(8, Some("8 (k) S 2 0"))
        },
    ]);
    assert_eq!(
        found,
        vec![
            ProcessInfo {
                pid: 5,
                ppid: 1,
                pgid: 5,
                name: "node".to_string(),
                command: "/bin/node --x \u{fffd}".to_string(),
            },
            ProcessInfo {
                pid: 8,
                ppid: 2,
                pgid: 0,
                name: String::new(),
                command: String::new(),
            },
        ]
    );
}

#[test]
fn sockets_are_matched_with_their_owners() {
    let tables = strings(&[TABLE, TABLE6]);
    let listener = |pid: u32, ip: IpAddr, port: u16| Listener { pid, ip, port };
    assert_eq!(
        proc_scan::all_listeners(&links(), &tables),
        vec![
            listener(7, IpAddr::V4(0x7f00_0001), 3000),
            listener(8, IpAddr::V4(0), 8080),
            listener(9, IpAddr::V4(0xc0a8_0101), 81),
            listener(9, IpAddr::V6(1), 3001),
        ]
    );
    assert_eq!(
        proc_scan::loopback_listeners(&links(), &tables),
        vec!["127.0.0.1:3000", "[::1]:3001"]
    );
    assert!(proc_scan::all_listeners(&Vec::new(), &tables).is_empty());
    assert_eq!(
        proc_scan::listen_signature(&tables),
        "0100007F:0BB8 1000 111\n00000000:1F90 1000 222\n0101A8C0:0051 1000 444\n00000000000000000000000001000000:0BB9 1000 555\n"
    );
    let other = TABLE.replacen("  1000        0 111", "  1001        0 111", 1);
    assert_ne!(
        proc_scan::listen_signature(&strings(&[&other, TABLE6])),
        proc_scan::listen_signature(&tables)
    );
}

#[test]
fn hexadecimal_addresses() {
    let parse = |text: &str| {
        let chars: Vec<char> = text.chars().collect();
        proc_scan::parse_hex_address(&chars)
    };
    assert_eq!(parse("0100007F"), Some(IpAddr::V4(0x7f00_0001)));
    assert_eq!(
        parse("B80D01200000000067452301EFCDAB89"),
        Some(IpAddr::V6(0x2001_0db8_0000_0000_0123_4567_89ab_cdef))
    );
    assert_eq!(parse("0100007"), None);
    assert_eq!(parse("0100007G"), None);
}

#[test]
fn ps_and_lsof_are_read() {
    let ps = "  1   0   1 /sbin/init splash\n 20 1 20 /usr/bin/node  server.js\nbad line\n 30 20\n";
    let found = fallback_scan::process_table(Ok(ps.to_string()));
    assert_eq!(found.len(), 2);
    assert_eq!(found[1].name, "node");
    assert_eq!(found[1].command, "/usr/bin/node server.js");
    assert!(fallback_scan::process_table(Err("x".to_string())).is_empty());
    let groups = " 9 1 7\n 5 1 7\n 9 2 7\n 6 1 8\nx 1 7\n";
    assert_eq!(
        fallback_scan::owned_processes(7, Ok(groups.to_string())),
        vec![5, 9]
    );
    assert!(fallback_scan::owned_processes(7, Err("x".to_string())).is_empty());
    let lsof = "p12\nn127.0.0.1:3000\nn*:80\nn[::1]:5\nn127.0.0.1:3000\npx\nn*:81\np13\nnhost:1\nn10.0.0.1:9\n";
    let listeners = fallback_scan::all_listeners(Ok(lsof.to_string())).expect("listeners");
    assert_eq!(
        listeners,
        vec![
            Listener {
                pid: 12,
                ip: IpAddr::V4(0x7f00_0001),
                port: 3000
            },
            Listener {
                pid: 12,
                ip: IpAddr::V4(0),
                port: 80
            },
            Listener {
                pid: 12,
                ip: IpAddr::V6(1),
                port: 5
            },
            Listener {
                pid: 13,
                ip: IpAddr::V4(0x0a00_0001),
                port: 9
            },
        ]
    );
    assert_eq!(
        fallback_scan::all_listeners(Err("gone".to_string())),
        Err("gone".to_string())
    );
    assert_eq!(
        fallback_scan::loopback_listeners(&[12], Ok(lsof.to_string())),
        Ok(strings(&["127.0.0.1:3000", "[::1]:5"]))
    );
    assert_eq!(
        fallback_scan::loopback_listeners(&[], Err("gone".to_string())),
        Ok(Vec::new())
    );
    assert_eq!(
        fallback_scan::loopback_listeners(&[1], Err("gone".to_string())),
        Err("gone".to_string())
    );
}

#[test]
fn directories_and_signatures_are_read() {
    let lsof = "p12\nfcwd\nn/home/a\np13\nn/b\np12\nn/c\n";
    assert_eq!(
        fallback_scan::working_directories(&[12, 13], Ok(lsof.to_string())),
        vec![
            (12, "/home/a".to_string()),
            (13, "/b".to_string()),
            (12, "/c".to_string())
        ]
    );
    assert!(fallback_scan::working_directories(&[], Ok(lsof.to_string())).is_empty());
    assert!(fallback_scan::working_directories(&[1], Err("x".to_string())).is_empty());
    assert_eq!(
        fallback_scan::listen_signature(Ok("a LISTEN\r\nb\nc LISTEN\n".to_string())),
        Ok("a LISTEN\nc LISTEN".to_string())
    );
    assert_eq!(
        fallback_scan::listen_signature(Err("x".to_string())),
        Err("x".to_string())
    );
    assert_eq!(
        fallback_scan::listener_arguments(&[1, 22]),
        vec!["lsof", "-nP", "-a", "-p", "1,22", "-iTCP", "-sTCP:LISTEN", "-Fn"]
    );
    assert_eq!(
        fallback_scan::directory_arguments(&[3]),
        vec!["lsof", "-a", "-d", "cwd", "-p", "3", "-Fpn"]
    );
}

#[test]
fn hosts_on_the_loopback_interface() {
    let serves = |host: &str| {
        let chars: Vec<char> = host.chars().collect();
        fallback_scan::is_loopback_host(&chars)
    };
    for host in ["localhost", "127.0.0.1", "127.9.9.9", "[::1]", "[localhost]"] {
        assert!(serves(host), "{host}");
    }
    for host in ["", "*", "0.0.0.0", "[::]", "10.0.0.1", "[fe80::1]"] {
        assert!(!serves(host), "{host}");
    }
}

#[test]
fn servers_on_every_interface_are_not_discovered() {
    let lsof = "p42\nn*:5173\nn0.0.0.0:1\nn[::]:2\n";
    assert_eq!(
        fallback_scan::loopback_listeners(&[42], Ok(lsof.to_string())),
        Ok(Vec::new())
    );
    assert_eq!(
        fallback_scan::all_listeners(Ok(lsof.to_string())).map(|found| found.len()),
        Ok(3)
    );
}
