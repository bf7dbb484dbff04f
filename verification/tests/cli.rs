use poros::cli::{
    FlagParser, is_loopback_host, parse_config, parse_config_for, parse_target, usage_text, Config,
    ParseOutcome, TargetUrl,
};

fn args(items: &[&str]) -> Vec<String> {
    items.iter().map(|item| item.to_string()).collect()
}

#[test]
fn parses_command_with_flags() {
    let outcome = parse_config(&args(&["-https", "9119", "vp", "dev"])).expect("parses");
    let ParseOutcome::Config(config) = outcome else {
        panic!("expected config");
    };
    assert_eq!(config.port, 9119);
    assert_eq!(config.command, vec!["vp", "dev"]);
    assert!(config.target.is_none());
}

#[test]
fn parses_equals_form_and_auto_port() {
    let outcome = parse_config(&args(&["--https=8123", "bun", "run", "dev"])).expect("parses");
    let ParseOutcome::Config(config) = outcome else {
        panic!("expected config");
    };
    assert_eq!(config.port, 8123);
    assert_eq!(config.command, vec!["bun", "run", "dev"]);
}

#[test]
fn bool_flags_work_bare() {
    let outcome = parse_config(&args(&["--version"])).expect("parses");
    assert!(matches!(outcome, ParseOutcome::Version(_)));
    let outcome = parse_config(&args(&["--version=false", "sh"])).expect("parses");
    let ParseOutcome::Config(config) = outcome else {
        panic!("expected config");
    };
    assert_eq!(config.command, vec!["sh"]);
}

#[test]
fn double_dash_separates_command() {
    let outcome = parse_config(&args(&["--", "-weird", "arg"])).expect("parses");
    let ParseOutcome::Config(config) = outcome else {
        panic!("expected config");
    };
    assert_eq!(config.command, vec!["-weird", "arg"]);
}

#[test]
fn rejects_missing_command_and_target() {
    let error = parse_config(&args(&[])).expect_err("empty args rejected");
    assert_eq!(error, "provide a command or --target");
}

#[test]
fn rejects_unknown_flag() {
    let error = parse_config(&args(&["-nope", "sh"])).expect_err("unknown flag rejected");
    assert_eq!(error, "flag provided but not defined: -nope");
}

#[test]
fn rejects_out_of_range_https_port() {
    let error = parse_config(&args(&["-https", "70000", "sh"])).expect_err("port rejected");
    assert!(error.contains("between 1 and 65535"));
}

#[test]
fn parses_duration_units() {
    let outcome = parse_config(&args(&["-timeout", "45s", "sh"])).expect("parses");
    let ParseOutcome::Config(config) = outcome else {
        panic!("expected config");
    };
    assert_eq!(
        std::time::Duration::from_nanos(config.timeout),
        std::time::Duration::from_secs(45)
    );
    let error = parse_config(&args(&["-timeout", "0s", "sh"])).expect_err("zero rejected");
    assert!(error.contains("positive"));
}

#[test]
fn target_accepts_loopback_urls() {
    for value in [
        "http://127.0.0.1:3000",
        "http://localhost:3000",
        "http://[::1]:3000",
        "http://127.0.0.1",
    ] {
        let outcome = parse_config(&args(&["-target", value])).expect(value);
        let ParseOutcome::Config(config) = outcome else {
            panic!("expected config for {value}");
        };
        assert!(config.target.is_some(), "{value}");
        assert!(config.command.is_empty(), "{value}");
    }
}

#[test]
fn target_rejects_non_loopback_and_decorations() {
    for value in [
        "http://example.com:3000",
        "https://127.0.0.1:3000",
        "http://user@127.0.0.1:3000",
        "http://127.0.0.1:3000/path",
        "http://127.0.0.1:3000?q=1",
        "http://127.0.0.1:0",
        "127.0.0.1:3000",
    ] {
        assert!(
            parse_config(&args(&["-target", value])).is_err(),
            "{value} should be rejected"
        );
    }
}

#[test]
fn prints_usage() {
    assert!(usage_text().starts_with("Usage: poros [options] command [args ...]"));
}

fn config(items: &[&str]) -> Config {
    match parse_config(&args(items)) {
        Ok(ParseOutcome::Config(config)) => config,
        other => panic!("expected config, got {other:?}"),
    }
}

fn error(items: &[&str]) -> String {
    match parse_config(&args(items)) {
        Err(error) => error,
        other => panic!("expected an error, got {other:?}"),
    }
}

#[test]
fn defaults_without_flags() {
    let found = config(&["sh", "-c", "true"]);
    assert_eq!(found.command, vec!["sh", "-c", "true"]);
    assert_eq!(found.port, 0);
    assert_eq!(found.timeout, 30_000_000_000);
    assert!(found.tailscale_cli.is_none());
    assert!(!found.version);
}

#[test]
fn dashboard_is_a_subcommand_only_in_front() {
    assert!(matches!(
        parse_config(&args(&["dashboard"])),
        Ok(ParseOutcome::Dashboard)
    ));
    assert_eq!(error(&["dashboard", "now"]), "dashboard takes no arguments");
    assert_eq!(config(&["--", "dashboard"]).command, vec!["dashboard"]);
    assert_eq!(
        config(&["--", "dashboard", "-https", "1"]).command,
        vec!["dashboard", "-https", "1"]
    );
}

#[test]
fn version_names_the_build() {
    match parse_config_for(&args(&["-version"]), "1.2.3") {
        Ok(ParseOutcome::Version(version)) => assert_eq!(version, "1.2.3"),
        other => panic!("expected a version, got {other:?}"),
    }
    match parse_config(&args(&["--version=1"])) {
        Ok(ParseOutcome::Version(version)) => assert_eq!(version, "dev"),
        other => panic!("expected a version, got {other:?}"),
    }
    assert!(matches!(
        parse_config(&args(&["-h"])),
        Ok(ParseOutcome::Help)
    ));
    assert!(matches!(
        parse_config(&args(&["-version", "--help"])),
        Ok(ParseOutcome::Help)
    ));
}

#[test]
fn every_flag_error() {
    assert_eq!(error(&["---"]), "bad flag syntax: ---");
    assert_eq!(error(&["-=x"]), "bad flag syntax: -=x");
    assert_eq!(error(&["-https"]), "flag needs an argument: -https");
    assert_eq!(
        error(&["-https", "x", "sh"]),
        "HTTPS port must be between 1 and 65535"
    );
    assert_eq!(
        error(&["-https=-1", "sh"]),
        "HTTPS port must be between 1 and 65535"
    );
    assert_eq!(
        error(&["-version=maybe", "sh"]),
        "invalid boolean value for -version: \"maybe\""
    );
    assert_eq!(
        error(&["-version=a\"b", "sh"]),
        "invalid boolean value for -version: \"a\\\"b\""
    );
    assert_eq!(error(&["-timeout", "0s", "sh"]), "timeout must be positive");
    assert_eq!(
        error(&["-timeout", "5", "sh"]),
        "invalid duration \"5\""
    );
    assert_eq!(
        error(&["-timeout", "1.2.3s", "sh"]),
        "invalid duration \"1.2.3s\""
    );
    assert_eq!(
        error(&["-timeout", ".s", "sh"]),
        "invalid duration \".s\""
    );
    assert_eq!(
        error(&["-timeout", "s", "sh"]),
        "invalid duration \"s\""
    );
    assert_eq!(
        error(&["-timeout", "3d", "sh"]),
        "unknown unit \"d\" in duration \"3d\""
    );
    assert_eq!(
        error(&["-timeout", "10ms", "sh"]),
        "sub-second durations are not supported: \"10ms\""
    );
    assert_eq!(
        error(&["-timeout", "10µs", "sh"]),
        "sub-second durations are not supported: \"10µs\""
    );
    assert_eq!(
        error(&["-timeout", "99999999999h", "sh"]),
        "duration \"99999999999h\" out of range"
    );
}

#[test]
fn flags_end_at_the_first_word() {
    let found = config(&["-https", "80", "-", "-https", "90"]);
    assert_eq!(found.port, 80);
    assert_eq!(found.command, vec!["-", "-https", "90"]);
    assert_eq!(config(&["--https=1", "--https=2", "sh"]).port, 2);
    let found = config(&["-tailscale-cli", "/bin/ts", "-https=65535", "sh"]);
    assert_eq!(found.tailscale_cli.as_deref(), Some("/bin/ts"));
    assert_eq!(found.port, 65535);
    assert_eq!(config(&["sh"]).port, 0);
    for bad in ["-https=0", "-https=00", "-https=65536"] {
        assert_eq!(error(&[bad, "sh"]), "HTTPS port must be between 1 and 65535");
    }
}

#[test]
fn targets_are_canonical() {
    let found = parse_target("http://LOCALHOST.:8080/").expect("loopback");
    assert_eq!(found.host, "localhost");
    assert_eq!(found.port, 8080);
    assert_eq!(found.url(), "http://localhost:8080");
    let found = parse_target("http://[::1]:3000").expect("loopback");
    assert_eq!(found.host, "::1");
    assert_eq!(found.authority(), "::1:3000");
    assert_eq!(found.url(), "http://[::1]:3000");
    assert_eq!(parse_target(&found.url()), Ok(found));
    assert_eq!(parse_target("http://127.9.9.9").expect("loopback").port, 80);
}

#[test]
fn every_target_error() {
    let rejected =
        "target must be a loopback HTTP URL without credentials, path, query, or fragment";
    for value in [
        "ftp://127.0.0.1:1",
        "http://",
        "http://127.0.0.1:1/x",
        "http://127.0.0.1:1#f",
        "http://a@127.0.0.1:1",
        "http://[::1]3000",
        "http://10.0.0.1:1",
        "http://[::2]:1",
    ] {
        assert_eq!(parse_target(value), Err(rejected.to_string()), "{value}");
    }
    assert_eq!(
        parse_target("http://[::1:3000"),
        Err("invalid IPv6 address in \"http://[::1:3000\"".to_string())
    );
    assert_eq!(
        parse_target("http://127.0.0.1:0"),
        Err("target port cannot be zero".to_string())
    );
    assert_eq!(
        parse_target("http://127.0.0.1:65536"),
        Err("invalid port in \"http://127.0.0.1:65536\"".to_string())
    );
}

#[test]
fn loopback_hosts() {
    for host in ["localhost", "127.0.0.1", "127.255.0.9", "::1", "[::1]", "0:0::0:1"] {
        assert!(is_loopback_host(host), "{host}");
    }
    for host in ["", "LOCALHOST", "128.0.0.1", "::", "[localhost]", "127.1", "[", "[]"] {
        assert!(!is_loopback_host(host), "{host}");
    }
}

#[test]
fn target_copy_is_equal() {
    let target = TargetUrl {
        host: "localhost".to_string(),
        port: 7,
    };
    assert_eq!(target.copy(), target);
    assert_eq!(target.authority(), "localhost:7");
}

#[test]
fn an_error_stops_at_the_argument_at_fault() {
    for (items, after) in [
        (vec!["-https"], 1),
        (vec!["---"], 0),
        (vec!["-=x", "y"], 0),
    ] {
        let given = args(&items);
        let mut parser = FlagParser::new(&given);
        assert!(parser.next().is_err());
        assert_eq!(parser.index, after, "{items:?}");
    }
}
