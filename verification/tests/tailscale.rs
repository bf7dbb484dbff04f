use poros::localapi::with_foreground_route;
use poros::tailscale::{
    cli_candidates, find_cli, is_executable, load_node, loopback_proxy_port, parse_node,
    parse_serve_config, read_serve_config, run_capture, serve_document, Capture, SelfStatus,
    ServeConfig, StatusDocument, Tailscale, WebHandler, WebRoute,
};
use serde_json::Value;

fn text_field(value: &Value, name: &str) -> Result<String, String> {
    match value.get(name) {
        None => Ok(String::new()),
        Some(Value::String(text)) => Ok(text.clone()),
        Some(_) => Err(format!("{name} is no string")),
    }
}

fn status(document: &str) -> Result<StatusDocument, String> {
    let value: Value = serde_json::from_str(document).map_err(|error| error.to_string())?;
    let self_status = match value.get("Self") {
        None | Some(Value::Null) => None,
        Some(own) => Some(SelfStatus {
            dns_name: text_field(own, "DNSName")?,
        }),
    };
    Ok(StatusDocument {
        backend_state: text_field(&value, "BackendState")?,
        self_status,
    })
}

fn route(value: &Value) -> Result<WebRoute, String> {
    let mut handlers = Vec::new();
    if let Some(Value::Object(members)) = value.get("Handlers") {
        for (path, handler) in members {
            handlers.push((
                path.clone(),
                WebHandler {
                    proxy: text_field(handler, "Proxy")?,
                },
            ));
        }
    }
    Ok(WebRoute { handlers })
}

fn config_of(value: &Value) -> Result<ServeConfig, String> {
    let Value::Object(members) = value else {
        return Err("expected an object".to_string());
    };
    let mut config = ServeConfig::empty();
    for (name, member) in members {
        match (name.as_str(), member) {
            ("TCP", Value::Object(ports)) => config.tcp.extend(ports.keys().cloned()),
            ("Web", Value::Object(hosts)) => {
                for (host, found) in hosts {
                    config.web.push((host.clone(), route(found)?));
                }
            }
            ("Foreground", Value::Object(sessions)) => {
                for (id, session) in sessions {
                    let child = match session {
                        Value::Null => None,
                        other => Some(config_of(other)?),
                    };
                    config.foreground.push((id.clone(), child));
                }
            }
            ("AllowFunnel", Value::Object(hosts)) => {
                for (host, enabled) in hosts {
                    let enabled = enabled.as_bool().ok_or("expected a boolean")?;
                    config.allow_funnel.push((host.clone(), enabled));
                }
            }
            ("Services", _) => {}
            ("ETag", Value::String(etag)) => config.etag = Some(etag.clone()),
            _ => return Err(format!("unknown field {name}")),
        }
    }
    Ok(config)
}

fn serve_config(output: &str) -> Result<ServeConfig, String> {
    let decoded = match serve_document(output) {
        None => Ok(ServeConfig::empty()),
        Some(text) => match serde_json::from_str::<Value>(&text) {
            Ok(value) => config_of(&value),
            Err(error) => Err(error.to_string()),
        },
    };
    parse_serve_config(output, decoded)
}

#[test]
fn parses_running_node() {
    let document = r#"{
		"BackendState": "Running",
		"Self": { "DNSName": "server.tail1234.ts.net." }
	}"#;
    let node = parse_node(status(document)).expect("parses");
    assert_eq!(node.dns_name, "server.tail1234.ts.net");
}

#[test]
fn rejects_stopped_backend() {
    let document = r#"{ "BackendState": "NeedsLogin", "Self": { "DNSName": "x.ts.net." } }"#;
    let error = parse_node(status(document)).expect_err("rejected");
    assert!(error.contains("not running"));
}

#[test]
fn rejects_missing_dns_name() {
    let document = r#"{ "BackendState": "Running", "Self": { "DNSName": "" } }"#;
    let error = parse_node(status(document)).expect_err("rejected");
    assert!(error.contains("MagicDNS"));
}

#[test]
fn empty_serve_status_is_default() {
    let config = serve_config("null").expect("parses");
    assert!(!config.uses_port(8080));
    assert!(!config.owns_route("x.ts.net:8080", "http://127.0.0.1:1"));
}

#[test]
fn serve_config_unknown_fields_rejected() {
    assert!(serve_config(r#"{"Unknown": true}"#).is_err());
}

#[test]
fn uses_port_checks_all_sections() {
    let document = r#"{
		"TCP": { "8080": {} },
		"Web": { "node.ts.net:9090": { "Handlers": { "/": { "Proxy": "http://127.0.0.1:1" } } } },
		"AllowFunnel": { "node.ts.net:7070": true, "node.ts.net:7071": false },
		"Foreground": {
			"abc": {
				"TCP": {},
				"Web": { "node.ts.net:6060": { "Handlers": { "/": { "Proxy": "http://127.0.0.1:2" } } } },
				"AllowFunnel": {},
				"Services": null
			}
		}
	}"#;
    let config = serve_config(document).expect("parses");
    assert!(config.uses_port(8080));
    assert!(config.uses_port(9090));
    assert!(config.uses_port(7070));
    assert!(!config.uses_port(7071), "funnel disabled on that port");
    assert!(config.uses_port(6060));
    assert!(!config.uses_port(5050));
}

#[test]
fn owns_route_requires_exact_proxy_and_no_funnel() {
    let document = r#"{
		"Foreground": {
			"child": {
				"TCP": {},
				"Web": {
					"node.ts.net:9119": { "Handlers": { "/": { "Proxy": "http://127.0.0.1:4567" } } }
				},
				"AllowFunnel": {},
				"Services": null
			}
		}
	}"#;
    let config = serve_config(document).expect("parses");
    assert!(config.owns_route("node.ts.net:9119", "http://127.0.0.1:4567"));
    assert!(!config.owns_route("node.ts.net:9119", "http://127.0.0.1:9999"));
    assert!(!config.owns_route("other.ts.net:9119", "http://127.0.0.1:4567"));
}

#[test]
fn background_routes_are_not_owned() {
    let document = r#"{
		"TCP": {},
		"Web": { "node.ts.net:9119": { "Handlers": { "/": { "Proxy": "http://127.0.0.1:4567" } } } }
	}"#;
    let config = serve_config(document).expect("parses");
    assert!(!config.owns_route("node.ts.net:9119", "http://127.0.0.1:4567"));
}

#[test]
fn funnelled_routes_are_not_owned() {
    let document = r#"{ "Foreground": { "a": null, "b": {
        "Web": { "n.ts.net:1": { "Handlers": { "/": { "Proxy": "http://127.0.0.1:2" } } } },
        "AllowFunnel": { "n.ts.net:1": false } } } }"#;
    let config = serve_config(document).expect("parses");
    assert!(!config.owns_route("n.ts.net:1", "http://127.0.0.1:2"));
    assert!(config.uses_port(1));
}

#[test]
fn routes_to_loopback_ports_in_order() {
    let document = r#"{
        "Web": {
            "n.ts.net:443": { "Handlers": {
                "/": { "Proxy": "http://127.0.0.1:3000" },
                "/api": { "Proxy": "localhost:2000" },
                "/far": { "Proxy": "http://10.0.0.1:2000" } } }
        },
        "Foreground": { "s": { "Web": {
            "n.ts.net:9000": { "Handlers": { "/": { "Proxy": "http://[::1]:2000/x" } } } } } }
    }"#;
    let config = serve_config(document).expect("parses");
    assert_eq!(
        config.loopback_routes(),
        vec![
            (2000, "https://n.ts.net/api".to_string()),
            (2000, "https://n.ts.net:9000".to_string()),
            (3000, "https://n.ts.net".to_string()),
        ]
    );
}

#[test]
fn proxy_ports() {
    assert_eq!(loopback_proxy_port("http://127.0.0.1:3000"), Some(3000));
    assert_eq!(loopback_proxy_port("LocalHost:1"), Some(1));
    assert_eq!(loopback_proxy_port("3000"), Some(3000));
    assert_eq!(loopback_proxy_port("https+insecure://[::1]:5/a:b"), Some(5));
    assert_eq!(loopback_proxy_port("http://example.com:80"), None);
    assert_eq!(loopback_proxy_port("http://127.0.0.1"), None);
    assert_eq!(loopback_proxy_port("70000"), None);
}

#[test]
fn node_errors() {
    let error = parse_node(Err("line 1".to_string())).expect_err("rejected");
    assert_eq!(error, "parse Tailscale status: line 1");
    let error = parse_node(status(r#"{"BackendState":"Running"}"#)).expect_err("rejected");
    assert_eq!(error, "this node has no Tailscale IP");
    let error = parse_node(status(r#"{"BackendState":"Stopped"}"#)).expect_err("rejected");
    assert_eq!(error, "Tailscale is not running (state: Stopped)");
    let error = load_node(Err("timed out".to_string())).expect_err("rejected");
    assert_eq!(error, "timed out");
    let own = status(r#"{"BackendState":"Running","Self":{"DNSName":"a.b.."}}"#);
    assert_eq!(load_node(Ok(own)).expect("a node").dns_name, "a.b");
}

#[test]
fn serve_status_errors() {
    let error = parse_serve_config("{", Err("EOF".to_string())).err();
    assert_eq!(error.as_deref(), Some("unsupported Serve status: EOF"));
    assert!(parse_serve_config(" \n", Err("unused".to_string())).is_ok());
    assert_eq!(serve_document("  {} \n").as_deref(), Some("{}"));
    assert_eq!(serve_document(" null\n"), None);
}

#[test]
fn captures_of_the_client() {
    let done = run_capture("status", Capture::Done("{\"é\":1}".as_bytes().to_vec()));
    assert_eq!(done, Ok("{\"é\":1}".to_string()));
    let bad = run_capture("status", Capture::Done(vec![b'a', 0xff]));
    assert_eq!(
        bad,
        Err("parse status: invalid utf-8 sequence of 1 bytes from index 1".to_string())
    );
    let failed = run_capture("Serve status", Capture::Failed(b"no \xff\n\n".to_vec()));
    assert_eq!(failed, Err("read Serve status: no \u{fffd}".to_string()));
    assert_eq!(
        run_capture("status", Capture::TimedOut),
        Err("read status: timed out".to_string())
    );
    assert_eq!(
        run_capture("status", Capture::NotStarted("missing".to_string())),
        Err("read status: missing".to_string())
    );
    assert_eq!(
        run_capture("status", Capture::Lost("gone".to_string())),
        Err("wait for Tailscale CLI: gone".to_string())
    );
}

#[test]
fn the_client_is_searched_for_in_order() {
    let app = "/Applications/Tailscale.app/Contents/MacOS/Tailscale";
    assert_eq!(
        cli_candidates(Some("/a".to_string()), Some("/b".to_string()), true),
        vec!["/a", "/b", app]
    );
    assert_eq!(
        cli_candidates(None, Some(String::new()), false),
        Vec::<String>::new()
    );
    let paths = vec![("/a".to_string(), false), ("/b".to_string(), true)];
    assert_eq!(find_cli(&paths), Ok("/b".to_string()));
    assert_eq!(
        find_cli(&Vec::new()),
        Err("Tailscale CLI not found; install Tailscale or set TAILSCALE_CLI".to_string())
    );
    assert!(is_executable(0o100755) && is_executable(0o001));
    assert!(!is_executable(0o100644));
}

#[test]
fn the_socket_comes_first_unless_a_client_is_selected() {
    let sockets = vec![("/gone".to_string(), false), ("/sock".to_string(), true)];
    let clients = vec![("/bin/tailscale".to_string(), true)];
    let chosen = Some("/bin/tailscale".to_string());
    let found = Tailscale::connect(&None, &Some(String::new()), &sockets, &clients);
    assert!(matches!(found, Ok(Tailscale::Local(api)) if api.socket == "/sock"));
    let found = Tailscale::connect(&chosen, &None, &sockets, &clients);
    assert!(matches!(found, Ok(Tailscale::Cli(path)) if path == "/bin/tailscale"));
    let found = Tailscale::connect(&None, &chosen, &sockets, &clients);
    assert!(matches!(found, Ok(Tailscale::Cli(path)) if path == "/bin/tailscale"));
    let found = Tailscale::connect(&None, &None, &Vec::new(), &clients);
    assert!(matches!(found, Ok(Tailscale::Cli(_))));
    let found = Tailscale::connect(&chosen, &None, &sockets, &Vec::new());
    assert!(matches!(found, Err(error) if error.starts_with("Tailscale CLI not found")));
}

#[test]
fn serve_status_is_read_or_refused() {
    assert!(matches!(
        read_serve_config(Err("read Serve status: gone".to_string())),
        Err(error) if error == "read Serve status: gone"
    ));
    let cause = || Err("expected an object".to_string());
    assert!(read_serve_config(Ok(("null".to_string(), cause()))).is_ok());
    assert!(matches!(
        read_serve_config(Ok(("[]".to_string(), cause()))),
        Err(error) if error == "unsupported Serve status: expected an object"
    ));
}

#[test]
fn a_route_just_inserted_is_owned() {
    let before = r#"{ "Web": { "n.ts.net:1": { "Handlers": {} } }, "Foreground": { "a": null } }"#;
    let bridge = "http://127.0.0.1:4567";
    let after = with_foreground_route(before, "me", 9119, "n.ts.net:9119", bridge).expect("a route");
    let config = serve_config(&after).expect("parses");
    assert!(config.owns_route("n.ts.net:9119", bridge));
    assert!(config.uses_port(9119) && config.uses_port(1));
    assert!(!config.owns_route("n.ts.net:1", bridge));
}
