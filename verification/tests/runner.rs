use poros::cli::{parse_config, Config, ParseOutcome, TargetUrl};
use poros::runner::{
    announce, await_tool, bridge_url, child_exit_code, child_group, conclude, discover, interrupted,
    judge_status, must_sweep, prepare, run, run_config, shown_output, spawn_parts, stop_client,
    supervise, temp_file_name, wait_group_exit, ChildStatus, Cleanup, CliRoute, CliStep, Discovery,
    Dispatch, EndStep, Ending, Exit, Failure, StatusStep, Supervision,
};
use poros::tailscale::{ServeConfig, TailnetNode, WebHandler, WebRoute, STATUS_TIMEOUT};

fn config(items: &[&str]) -> Config {
    let args: Vec<String> = items.iter().map(|item| item.to_string()).collect();
    match parse_config(&args) {
        Ok(ParseOutcome::Config(config)) => config,
        other => panic!("expected config, got {other:?}"),
    }
}

fn node() -> TailnetNode {
    TailnetNode {
        dns_name: "n.ts.net".to_string(),
    }
}

fn target() -> TargetUrl {
    TargetUrl {
        host: "127.0.0.1".to_string(),
        port: 3000,
    }
}

fn message(exit: &Exit) -> &str {
    match exit {
        Exit::Failed(Failure {
            code: 1,
            message: Some(message),
        }) => message,
        other => panic!("expected a failure, got {other:?}"),
    }
}

#[test]
fn arguments_are_dispatched() {
    assert!(matches!(run(Ok(ParseOutcome::Dashboard)), Dispatch::Dashboard));
    assert!(matches!(
        run(Ok(ParseOutcome::Config(config(&["sh"])))),
        Dispatch::Run(_)
    ));
    let Dispatch::Print(text) = run(Ok(ParseOutcome::Version("dev".to_string()))) else {
        panic!("expected text");
    };
    assert_eq!(text, "dev\n");
    let Dispatch::Print(text) = run(Ok(ParseOutcome::Help)) else {
        panic!("expected text");
    };
    assert!(text.starts_with("Usage: poros"));
    let Dispatch::Refuse(text, code) = run(Err("bad".to_string())) else {
        panic!("expected a refusal");
    };
    assert_eq!((text.as_str(), code), ("poros: bad\n", 2));
}

#[test]
fn exit_codes_of_runs() {
    assert_eq!(run_config(Ok(()), 0), (0, None));
    assert_eq!(
        run_config(Err(Failure::error("no")), 0),
        (1, Some("poros: no\n".to_string()))
    );
    assert_eq!(run_config(Err(Failure::error("no")), 2), (1, None));
    assert_eq!(run_config(Err(Failure::plain(0)), 0), (1, None));
    assert_eq!(run_config(Err(Failure::plain(7)), 0), (7, None));
}

#[test]
fn runs_are_prepared() {
    let free = ServeConfig::empty();
    let plan = prepare(&config(&["sh"]), &node(), &free, 4321, None).expect("a plan");
    assert_eq!(plan.https_port, 4321);
    assert_eq!(plan.authority, "n.ts.net:4321");
    assert!(plan.spawn);
    let chosen = config(&["-https", "9119", "-target", "http://localhost:1"]);
    let plan = prepare(&chosen, &node(), &free, 0, Some("lsof".to_string())).expect("a plan");
    assert_eq!((plan.https_port, plan.spawn), (9119, false));
}

#[test]
fn obstacles_to_runs() {
    let said = |config: &Config, initial: &ServeConfig, missing: Option<String>| {
        prepare(config, &node(), initial, 443, missing)
            .err()
            .and_then(|failure| failure.message)
            .expect("an obstacle")
    };
    let free = ServeConfig::empty();
    assert_eq!(
        said(&config(&["sh"]), &free, None),
        "choose a dedicated HTTPS port, excluding Funnel ports 443, 8443, and 10000"
    );
    let mut used = ServeConfig::empty();
    used.tcp.push("80".to_string());
    assert_eq!(
        said(&config(&["-https", "80", "sh"]), &used, None),
        "HTTPS port 80 is already configured in Tailscale Serve; choose another with --https"
    );
    assert_eq!(
        said(&config(&["-https", "80", "sh"]), &free, Some("lsof".to_string())),
        "automatic discovery requires lsof"
    );
}

#[test]
fn the_route_is_announced() {
    assert_eq!(bridge_url(4567), "http://127.0.0.1:4567");
    assert_eq!(
        announce("n.ts.net:9119", &target()),
        "Poros URL: https://n.ts.net:9119/\nLocal target: http://127.0.0.1:3000\n"
    );
}

#[test]
fn ends_ask_for_cleanup() {
    let (cleanup, failure) = conclude(Exit::Signal(2));
    assert_eq!(cleanup, Cleanup::Forward(2));
    assert_eq!(failure.code, 130);
    let (cleanup, failure) = conclude(Exit::ChildExited(5));
    assert_eq!((cleanup, failure.code), (Cleanup::Sweep, 5));
    let (cleanup, failure) = conclude(Exit::Failed(Failure::error("x")));
    assert_eq!(cleanup, Cleanup::Terminate);
    assert_eq!(failure.message.as_deref(), Some("x"));
}

#[test]
fn children_end_runs() {
    assert_eq!(child_exit_code(None), None);
    assert_eq!(child_exit_code(Some(ChildStatus::Running)), None);
    assert_eq!(child_exit_code(Some(ChildStatus::Exited(Some(0)))), Some(0));
    assert_eq!(child_exit_code(Some(ChildStatus::Exited(None))), Some(1));
    assert_eq!(child_exit_code(Some(ChildStatus::Unknown)), Some(1));
    assert!(interrupted(None, None).is_none());
    assert!(matches!(
        interrupted(Some(15), Some(1)),
        Some(Exit::Signal(15))
    ));
    assert!(matches!(
        interrupted(None, Some(1)),
        Some(Exit::ChildExited(1))
    ));
}

#[test]
fn discovery_rounds() {
    let Discovery::Ended(exit) = discover(false, Ok(None), 0, 10) else {
        panic!("expected an end");
    };
    assert_eq!(message(&exit), "provide a command or --target");
    assert!(matches!(
        discover(true, Ok(Some(target())), 20, 10),
        Discovery::Found(_)
    ));
    assert!(matches!(
        discover(true, Ok(None), 0, 10),
        Discovery::Wait(150_000_000)
    ));
    let Discovery::Ended(exit) = discover(true, Ok(None), 10, 10) else {
        panic!("expected an end");
    };
    assert_eq!(
        message(&exit),
        "no unique loopback HTTP listener found before timeout; bind to localhost or select --target"
    );
    let Discovery::Ended(exit) = discover(true, Err("two".to_string()), 0, 10) else {
        panic!("expected an end");
    };
    assert_eq!(message(&exit), "two");
}

#[test]
fn supervision_rounds() {
    assert!(matches!(
        supervise(Some(2), Some(0), None),
        Supervision::Ended(Exit::Signal(2))
    ));
    assert!(matches!(
        supervise(None, Some(3), Some((true, false))),
        Supervision::Ended(Exit::ChildExited(3))
    ));
    assert!(matches!(
        supervise(None, None, Some((false, false))),
        Supervision::Sleep
    ));
    assert!(matches!(
        supervise(None, None, Some((true, true))),
        Supervision::Sleep
    ));
    assert!(matches!(
        supervise(None, None, None),
        Supervision::LookAtClient
    ));
    let Supervision::Ended(exit) = supervise(None, None, Some((true, false))) else {
        panic!("expected an end");
    };
    assert!(message(&exit).starts_with("Tailscale ended the Serve session"));
}

#[test]
fn the_client_is_retried_on_config_races() {
    let mut route = CliRoute::new();
    let race = Some("etag mismatch, try again".to_string());
    for attempt in 1..4u64 {
        let delay = 100_000_000 * attempt;
        let step = route.step(race.clone(), false, 1_000, 1_000_000_000);
        assert!(matches!(step, CliStep::Sleep(Some(time)) if time == delay));
        assert!(!route.running);
        assert!(!route.restart_due(1_000));
        assert!(matches!(
            route.step(None, false, 2_000, 1_000_000_000),
            CliStep::Sleep(Some(left)) if left == delay - 1_000
        ));
        assert!(route.restart_due(1_000 + delay));
        assert!(route.restarted(None).is_none());
        assert_eq!(route.attempts, attempt + 1);
        assert!(route.running);
    }
    let CliStep::Ended(exit, shown) = route.step(race, false, 0, 10) else {
        panic!("expected an end");
    };
    assert_eq!(
        message(&exit),
        "Tailscale Serve stopped; check HTTPS setup, permissions, and port conflicts"
    );
    assert_eq!(shown.as_deref(), Some("etag mismatch, try again"));
}

#[test]
fn the_client_is_watched() {
    let mut route = CliRoute::new();
    assert!(matches!(
        route.step(None, false, 0, 10),
        CliStep::CheckStatus
    ));
    assert!(matches!(route.step(None, true, 20, 10), CliStep::Sleep(None)));
    let CliStep::Ended(exit, None) = route.step(None, false, 10, 10) else {
        panic!("expected an end");
    };
    assert_eq!(
        message(&exit),
        "Tailscale Serve startup timed out; check HTTPS setup and permissions"
    );
    let CliStep::Ended(Exit::Failed(failure), None) =
        route.step(Some("bye".to_string()), true, 0, 10)
    else {
        panic!("expected an end");
    };
    assert_eq!((failure.code, failure.message), (1, None));
    let exit = route.restarted(Some("missing".to_string())).expect("an end");
    assert_eq!(message(&exit), "missing");
}

#[test]
fn the_route_is_awaited() {
    let owned = ServeConfig {
        foreground: vec![(
            "s".to_string(),
            Some(ServeConfig {
                web: vec![(
                    "n:1".to_string(),
                    WebRoute {
                        handlers: vec![(
                            "/".to_string(),
                            WebHandler {
                                proxy: "b".to_string(),
                            },
                        )],
                    },
                )],
                ..ServeConfig::empty()
            }),
        )],
        ..ServeConfig::empty()
    };
    assert!(matches!(
        judge_status(Ok(owned), "n:1", "b"),
        StatusStep::Up
    ));
    assert!(matches!(
        judge_status(Ok(ServeConfig::empty()), "n:1", "b"),
        StatusStep::Wait(150_000_000)
    ));
    let StatusStep::Ended(exit) = judge_status(Err("bad".to_string()), "n:1", "b") else {
        panic!("expected an end");
    };
    assert_eq!(message(&exit), "bad");
}

#[test]
fn groups_are_asked_before_they_are_killed() {
    let second = 1_000_000_000;
    assert_eq!(wait_group_exit(Ending::Asked, true, 0), EndStep::Wait);
    assert_eq!(wait_group_exit(Ending::Asked, true, 5 * second), EndStep::Kill);
    assert_eq!(wait_group_exit(Ending::Asked, false, 0), EndStep::Done);
    assert_eq!(wait_group_exit(Ending::Killed, true, 0), EndStep::Wait);
    assert_eq!(wait_group_exit(Ending::Killed, true, second), EndStep::Done);
    assert_eq!(stop_client(true, 0), EndStep::Wait);
    assert_eq!(stop_client(true, 3 * second), EndStep::Kill);
    assert_eq!(stop_client(false, 0), EndStep::Done);
    assert_eq!(await_tool(true, STATUS_TIMEOUT - 1, STATUS_TIMEOUT), EndStep::Wait);
    assert_eq!(await_tool(true, STATUS_TIMEOUT, STATUS_TIMEOUT), EndStep::Kill);
    assert_eq!(await_tool(false, STATUS_TIMEOUT, STATUS_TIMEOUT), EndStep::Done);
    assert!(must_sweep(5, true));
    assert!(!must_sweep(0, true));
    assert!(!must_sweep(5, false));
}

#[test]
fn children_are_spawned_from_commands() {
    let command = vec!["sh".to_string(), "-c".to_string(), "x".to_string()];
    let (program, arguments) = spawn_parts(&command).expect("a program");
    assert_eq!(program, "sh");
    assert_eq!(arguments, vec!["-c", "x"]);
    assert_eq!(spawn_parts(&Vec::new()), Err("empty command".to_string()));
    assert_eq!(child_group(7), Ok(7));
    assert_eq!(
        child_group(u32::MAX),
        Err("child pid out of range".to_string())
    );
    assert_eq!(temp_file_name(1, 2, 3), "poros-serve-1-2-3");
    assert_eq!(shown_output("x".to_string(), true), None);
    assert_eq!(shown_output("x".to_string(), false), Some("x".to_string()));
}
