use poros::serve::{is_funnel_port, serve_command, RESERVED_FUNNEL_PORTS};
use poros::signal::{
    last_signal, poll_millis, process_group_alive, signal_pid, signal_process_group, Events, Ready,
    WakeSignals,
};

#[test]
fn termination_signals_are_recorded_and_taken_once() {
    let wake = WakeSignals {
        child: 17,
        resize: 28,
    };
    let mut events = Events::new();
    assert_eq!(last_signal(&events), 0);
    events.on_signal(17, &wake);
    events.on_signal(28, &wake);
    assert_eq!(events.take_signal(), None);
    events.on_signal(2, &wake);
    assert_eq!(last_signal(&events), 2);
    assert_eq!(events.take_signal(), Some(2));
    assert_eq!(events.take_signal(), None);
    assert_eq!(last_signal(&events), 2);
}

#[test]
fn sleeps_are_rounded_up() {
    assert_eq!(poll_millis(None), -1);
    assert_eq!(poll_millis(Some(0)), 0);
    assert_eq!(poll_millis(Some(1)), 1);
    assert_eq!(poll_millis(Some(1_000_000)), 1);
    assert_eq!(poll_millis(Some(1_000_001)), 2);
    assert_eq!(poll_millis(Some(u64::MAX)), i32::MAX);
}

#[test]
fn polls_are_judged() {
    let none = Ready {
        woken: false,
        extra: false,
    };
    assert_eq!(Events::wait_with(0, true, true, true), none);
    assert_eq!(Events::wait_with(-1, true, true, true), none);
    assert_eq!(
        Events::wait_with(1, true, true, false),
        Ready {
            woken: true,
            extra: false
        }
    );
    assert_eq!(Events::wait_with(1, false, false, true), none);
}

#[test]
fn groups_and_processes_are_numbered() {
    assert_eq!(signal_process_group(12), Some(-12));
    assert_eq!(signal_process_group(u32::MAX), None);
    assert_eq!(signal_pid(12), Some(12));
    assert_eq!(signal_pid(0x8000_0000), None);
    assert!(process_group_alive(1, true, false));
    assert!(process_group_alive(1, false, false));
    assert!(!process_group_alive(1, false, true));
    assert!(!process_group_alive(u32::MAX, true, false));
}

#[test]
fn the_serve_command_is_exact() {
    assert_eq!(
        serve_command(9119, "http://127.0.0.1:4567"),
        vec!["serve", "--bg=false", "--https=9119", "http://127.0.0.1:4567"]
    );
    for port in RESERVED_FUNNEL_PORTS {
        assert!(is_funnel_port(port));
    }
    assert!(!is_funnel_port(444));
}
