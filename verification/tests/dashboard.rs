use poros::dashboard::keys::{keys, Key};
use poros::dashboard::rows::{build_rows, command_of, endpoint, endpoints, home_relative, Row};
use poros::dashboard::screen::{
    columns, fit, fit_tail, header_line, print_table, render, row_line,
};
use poros::dashboard::state::{first_word, Action, Pending, State, StopOrder};
use poros::discovery::{Listener, ProcessInfo};
use poros::ip::IpAddr;

const LOOPBACK: IpAddr = IpAddr::V4(0x7f00_0001);
const ANY: IpAddr = IpAddr::V4(0);

fn process(pid: u32, ppid: u32, pgid: u32, command: &str) -> ProcessInfo {
    ProcessInfo {
        pid,
        ppid,
        pgid,
        name: format!("p{pid}"),
        command: command.to_string(),
    }
}

fn listener(pid: u32, ip: IpAddr, port: u16) -> Listener {
    Listener { pid, ip, port }
}

fn route(port: u16, url: &str) -> (u16, String) {
    (port, url.to_string())
}

fn row(pid: u32) -> Row {
    Row {
        pid,
        group: pid % 2 == 0,
        session: false,
        command: format!("/bin/server{pid} --x"),
        dir: String::new(),
        endpoints: vec![format!("*:{pid}")],
        urls: Vec::new(),
        first_port: pid as u16,
    }
}

fn state(pids: &[u32]) -> State {
    let mut state = State::new(999);
    state.rows = pids.iter().map(|pid| row(*pid)).collect();
    state
}

#[test]
fn keys_are_read_from_bytes() {
    assert_eq!(
        keys(b"\x1b[A\x1bOBk\x1b[H\x1b[Fj\x1b[3~gG"),
        vec![
            Key::Up,
            Key::Down,
            Key::Up,
            Key::Home,
            Key::End,
            Key::Down,
            Key::Stop,
            Key::Home,
            Key::End
        ]
    );
    assert_eq!(
        keys(b"\x1b[1;5Cxdr\x03q\x04yYz\x1b"),
        vec![
            Key::Other,
            Key::Stop,
            Key::Stop,
            Key::Refresh,
            Key::Quit,
            Key::Quit,
            Key::Quit,
            Key::Yes,
            Key::Yes,
            Key::Other,
            Key::Escape
        ]
    );
    assert_eq!(keys(b"\x1b[12"), vec![Key::Other]);
    assert_eq!(keys(b""), Vec::<Key>::new());
}

#[test]
fn a_session_covers_its_tree() {
    let processes = vec![
        process(10, 1, 10, "/bin/poros vite"),
        process(11, 10, 11, "/bin/sh -c vite"),
        process(12, 11, 11, "/usr/bin/node vite"),
        process(20, 1, 20, "/bin/python3 -m http.server"),
    ];
    let listeners = vec![
        listener(10, LOOPBACK, 4567),
        listener(12, LOOPBACK, 5173),
        listener(12, IpAddr::V6(1), 5173),
        listener(20, ANY, 8000),
        listener(99, ANY, 1),
        listener(30, LOOPBACK, 7000),
    ];
    let routes = vec![
        route(4567, "https://n.ts.net:9119"),
        route(8000, "https://n.ts.net"),
    ];
    let rows = build_rows(&processes, &listeners, &routes, 99);
    let found: Vec<(u32, bool, bool, u16)> = rows
        .iter()
        .map(|row| (row.pid, row.session, row.group, row.first_port))
        .collect();
    assert_eq!(
        found,
        vec![
            (10, true, false, 5173),
            (30, false, false, 7000),
            (20, false, true, 8000)
        ]
    );
    assert_eq!(rows[0].command, "poros vite");
    assert_eq!(rows[0].endpoints, vec!["127.0.0.1:5173", "[::1]:5173"]);
    assert_eq!(rows[0].urls, vec!["https://n.ts.net:9119"]);
    assert_eq!(rows[1].command, "?");
    assert_eq!(rows[2].urls, vec!["https://n.ts.net"]);
    assert_eq!(rows[2].endpoints, vec!["*:8000"]);
}

#[test]
fn cycles_of_parents_end() {
    let processes = vec![
        process(1, 2, 1, "a"),
        process(2, 1, 2, "b"),
        process(3, 3, 3, "c"),
    ];
    let listeners = vec![
        listener(1, LOOPBACK, 10),
        listener(2, LOOPBACK, 20),
        listener(3, LOOPBACK, 30),
    ];
    let routes = vec![
        route(10, "https://a"),
        route(20, "https://b"),
        route(30, "https://c"),
    ];
    let rows = build_rows(&processes, &listeners, &routes, 0);
    let found: Vec<(u32, bool)> = rows.iter().map(|row| (row.pid, row.session)).collect();
    assert_eq!(found, vec![(1, true), (3, false)]);
}

#[test]
fn commands_paths_and_endpoints_are_shortened() {
    assert_eq!(command_of(None), "?");
    assert_eq!(command_of(Some(&process(1, 0, 1, ""))), "[p1]");
    assert_eq!(command_of(Some(&process(1, 0, 1, "/a/b"))), "b");
    assert_eq!(command_of(Some(&process(1, 0, 1, "/a/b "))), "b");
    assert_eq!(command_of(Some(&process(1, 0, 1, "/a/b c /d"))), "b c /d");
    assert_eq!(first_word("  /usr/bin/node x"), "node");
    assert_eq!(first_word(""), "");
    assert_eq!(home_relative("/home/a", "/home/a"), "~");
    assert_eq!(home_relative("/home/a/b", "/home/a"), "~/b");
    assert_eq!(home_relative("/home/ab", "/home/a"), "/home/ab");
    assert_eq!(home_relative("/x", "/"), "/x");
    assert_eq!(home_relative("/x", ""), "/x");
    assert_eq!(endpoint(ANY, 80), "*:80");
    assert_eq!(endpoint(IpAddr::V6(0), 80), "*:80");
    assert_eq!(endpoint(IpAddr::V6(0xffff_7f00_0001), 80), "127.0.0.1:80");
    assert_eq!(
        endpoints(&[listener(1, ANY, 2), listener(1, IpAddr::V6(0), 2)]),
        vec!["*:2"]
    );
}

#[test]
fn keys_move_the_selection() {
    let mut board = state(&[5, 6, 7]);
    assert_eq!(board.handle(Key::Up, None), Action::Nothing);
    assert_eq!(board.selected, 0);
    board.handle(Key::Down, None);
    board.handle(Key::Down, None);
    board.handle(Key::Down, None);
    assert_eq!(board.selected, 2);
    board.handle(Key::Home, None);
    assert_eq!(board.selected, 0);
    board.handle(Key::End, None);
    assert_eq!(board.selected, 2);
    assert_eq!(board.handle(Key::Quit, None), Action::Quit);
    assert_eq!(board.handle(Key::Escape, None), Action::Quit);
    board.message = "old".to_string();
    assert_eq!(board.handle(Key::Other, None), Action::Nothing);
    assert_eq!(board.handle(Key::Yes, None), Action::Nothing);
    assert_eq!(board.message, "old");
    assert_eq!(board.handle(Key::Refresh, None), Action::Refresh);
    assert_eq!(board.message, "");
}

#[test]
fn stops_need_consent() {
    let mut board = state(&[6]);
    assert_eq!(board.handle(Key::Stop, None), Action::Nothing);
    assert_eq!(board.message, "Stop 6 (server6)? y/N");
    assert_eq!(board.pending, Some((6, Pending::Stop)));
    assert_eq!(board.handle(Key::Up, None), Action::Nothing);
    assert_eq!(board.message, "Cancelled.");
    assert_eq!(board.pending, None);
    board.handle(Key::Stop, None);
    let order = StopOrder {
        pid: 6,
        group: true,
        kind: Pending::Stop,
        session: false,
    };
    assert_eq!(board.handle(Key::Yes, Some(1)), Action::Signal(order));
    board.signalled(&order, None);
    assert_eq!(
        board.message,
        "Sent SIGTERM to group 6. Press x again to force-kill."
    );
    board.handle(Key::Stop, None);
    assert_eq!(board.message, "Force-kill 6 (server6)? y/N");
    let Action::Signal(kill) = board.handle(Key::Yes, Some(6)) else {
        panic!("expected an order");
    };
    assert_eq!((kill.kind, kill.group), (Pending::Kill, false));
    board.signalled(&kill, None);
    assert_eq!(board.message, "Sent SIGKILL to process 6.");
    board.signalled(&kill, Some("denied".to_string()));
    assert_eq!(board.message, "Could not signal 6: denied");
}

#[test]
fn some_rows_are_never_signalled() {
    for pid in [1, 999] {
        let mut board = state(&[pid]);
        board.handle(Key::Stop, None);
        assert_eq!(board.handle(Key::Yes, None), Action::RefreshSoon);
        assert_eq!(board.message, format!("Refusing to signal {pid}."));
    }
    let mut board = state(&[6]);
    board.handle(Key::Stop, None);
    board.rows.clear();
    assert_eq!(board.handle(Key::Yes, None), Action::Refresh);
    assert_eq!(board.message, "6 already exited.");
    assert_eq!(board.handle(Key::Stop, None), Action::Nothing);
    let mut board = state(&[6]);
    board.rows[0].session = true;
    board.stopped.push(6);
    board.handle(Key::Stop, None);
    assert_eq!(board.pending, Some((6, Pending::Stop)));
    let Action::Signal(order) = board.handle(Key::Yes, None) else {
        panic!("expected an order");
    };
    board.signalled(&order, None);
    assert_eq!(board.message, "Sent SIGTERM to group 6.");
}

#[test]
fn scans_are_due_when_something_changed() {
    let mut board = State::new(1);
    assert_eq!(
        board.check(Ok("a".to_string()), 0),
        Some("a".to_string())
    );
    let found = Ok(vec![listener(5, LOOPBACK, 80)]);
    assert_eq!(board.scanned("a".to_string(), &found, 10), Some(true));
    let second = 1_000_000_000;
    assert_eq!(board.check(Ok("a".to_string()), 10 + 29 * second), None);
    assert!(board.check(Ok("a".to_string()), 10 + 30 * second).is_some());
    assert!(board.check(Ok("b".to_string()), 11).is_some());
    board.force_scan = true;
    assert!(board.check(Ok("a".to_string()), 11).is_some());
    assert_eq!(board.check(Err("broken".to_string()), 11), None);
    assert_eq!(board.message, "broken");
    let failed = Err("no lsof".to_string());
    assert_eq!(board.scanned("c".to_string(), &failed, 12), None);
    assert_eq!(board.message, "no lsof");
    assert_eq!(board.signature, "a");
}

#[test]
fn routes_are_loaded_when_listeners_change() {
    let mut board = State::new(1);
    let first = vec![listener(5, LOOPBACK, 80), listener(5, ANY, 80)];
    board.load(&first, Ok(vec![route(80, "https://x")]));
    assert_eq!(board.routes.len(), 1);
    let same = Ok(vec![listener(5, ANY, 80)]);
    assert_eq!(board.scanned("a".to_string(), &same, 0), Some(false));
    let more = Ok(vec![listener(5, ANY, 80), listener(6, ANY, 80)]);
    assert_eq!(board.scanned("a".to_string(), &more, 0), Some(true));
    board.load(&first, Err("no tailscale".to_string()));
    assert_eq!(board.tailscale_note.as_deref(), Some("no tailscale"));
    assert!(board.routes.is_empty());
    assert_eq!(board.scanned("a".to_string(), &same, 0), Some(true));
}

#[test]
fn new_rows_keep_the_selection() {
    let mut board = state(&[5, 6, 7]);
    board.selected = 1;
    board.stopped = vec![6, 8];
    board.pending = Some((7, Pending::Stop));
    let processes = vec![process(6, 1, 6, "x"), process(4, 1, 4, "y")];
    let listeners = vec![listener(4, ANY, 1), listener(6, ANY, 2)];
    let rows = board.next_rows(&processes, &listeners);
    let directories = vec![(6, "/root".to_string()), (6, "/root/a".to_string())];
    board.settle(rows, &directories, "/root", &processes);
    assert_eq!(board.rows.len(), 2);
    assert_eq!(board.selected, 1);
    assert_eq!(board.rows[1].dir, "~/a");
    assert_eq!(board.rows[0].dir, "");
    assert_eq!(board.stopped, vec![6]);
    assert_eq!(board.pending, None);
    board.settle(Vec::new(), &[], "", &[]);
    assert_eq!(board.selected, 0);
}

#[test]
fn actions_set_the_next_refresh() {
    let mut board = State::new(1);
    board.force_scan = false;
    assert_eq!(board.interact(&Action::Nothing, 5, 9), Some(9));
    assert!(!board.force_scan);
    assert_eq!(board.interact(&Action::Refresh, 5, 9), Some(5));
    assert!(board.force_scan);
    assert_eq!(
        board.interact(&Action::RefreshSoon, 5, 9),
        Some(400_000_005)
    );
    assert_eq!(board.interact(&Action::Quit, 5, 9), None);
}

#[test]
fn texts_are_cut_with_an_ellipsis() {
    assert_eq!(fit("abc", 3), "abc");
    assert_eq!(fit("abcd", 3), "ab…");
    assert_eq!(fit("abcd", 0), "…");
    assert_eq!(fit_tail("abc", 3), "abc");
    assert_eq!(fit_tail("abcd", 3), "…cd");
    assert_eq!(fit_tail("abcd", 0), "…");
}

#[test]
fn tables_are_printed() {
    let mut board = state(&[5]);
    board.rows[0].dir = "~/project".to_string();
    let widths = columns(&board.rows);
    assert_eq!(
        (widths.pid, widths.listen, widths.url, widths.dir),
        (3, 6, 3, 9)
    );
    assert_eq!(header_line(&widths), "PID  LISTEN  URL  DIR        COMMAND");
    assert_eq!(
        row_line(&board.rows[0], &widths),
        "  5  *:5     -    ~/project  /bin/server5 --x"
    );
    board.tailscale_note = Some("off".to_string());
    assert_eq!(
        print_table(&board),
        "PID  LISTEN  URL  DIR        COMMAND\n  5  *:5     -    ~/project  /bin/server5 --x\nTailscale URLs unavailable: off\n"
    );
}

#[test]
fn frames_are_drawn() {
    let mut board = State::new(1);
    assert_eq!(
        render(&mut board, 10, 24),
        "\x1b[H\x1b[2K\x1b[1mporos das…\x1b[0m\r\n\x1b[2K\r\n\x1b[2K\x1b[2mPID  LIST…\x1b[0m\r\n\x1b[2KNo listen…\r\n\x1b[2K\r\n\x1b[2K\r\n\x1b[2K\x1b[2m↑/↓ or j/…\x1b[0m\x1b[J"
    );
    let mut board = state(&[1, 2, 3, 4, 5]);
    board.selected = 4;
    board.message = "hello".to_string();
    let frame = render(&mut board, 60, 8);
    assert_eq!(board.offset, 3);
    assert!(frame.contains("poros dashboard: 5 listening servers"));
    assert!(frame.contains("\x1b[2K\x1b[7m  5  *:5     -    "));
    assert!(frame.contains("server4") && !frame.contains("server3"));
    assert!(frame.contains("\x1b[2Khello\r\n"));
    board.selected = 0;
    render(&mut board, 60, 8);
    assert_eq!(board.offset, 0);
}
