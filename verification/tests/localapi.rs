use poros::localapi::{
    build_request, decode_chunks, describe_failure, drain, first_notify, open_route,
    parse_response, port_taken_message, route_body, session_id, socket_paths, watch,
    watch_request, with_foreground_route, LocalApi, Reply, Response, RouteStep, WatchEvent,
    WatchStep,
};
use poros::proxy::ReadEvent;
use poros::tailscale::ServeConfig;
use serde_json::Value;

fn api() -> LocalApi {
    LocalApi {
        socket: "/run/ts.sock".to_string(),
    }
}

fn reply(text: &str) -> Reply {
    Reply::Bytes(text.as_bytes().to_vec())
}

#[test]
fn requests_are_written() {
    let plain = build_request("GET", "/p", None, None);
    assert_eq!(
        String::from_utf8(plain).expect("utf8"),
        "GET /p HTTP/1.1\r\nHost: local-tailscaled.sock\r\nConnection: close\r\n\r\n"
    );
    let change = build_request("POST", "/p", Some("v1"), Some(b"{}"));
    assert_eq!(
        String::from_utf8(change).expect("utf8"),
        "POST /p HTTP/1.1\r\nHost: local-tailscaled.sock\r\nConnection: close\r\nIf-Match: v1\r\nContent-Type: application/json\r\nContent-Length: 2\r\n\r\n{}"
    );
    assert_eq!(
        String::from_utf8(watch_request()).expect("utf8"),
        "GET /localapi/v0/watch-ipn-bus?mask=4354 HTTP/1.1\r\nHost: local-tailscaled.sock\r\nConnection: close\r\n\r\n"
    );
}

#[test]
fn sockets_are_tried_in_order() {
    assert_eq!(socket_paths().len(), 3);
    let flags: Vec<(String, bool)> = socket_paths()
        .into_iter()
        .map(|path| (path.clone(), path.starts_with("/var")))
        .collect();
    assert_eq!(
        LocalApi::discover(&flags).expect("a socket").socket,
        "/var/run/tailscale/tailscaled.sock"
    );
    assert!(LocalApi::discover(&Vec::new()).is_none());
}

#[test]
fn chunked_bodies_are_decoded() {
    assert_eq!(
        decode_chunks(b"3\r\nabc\r\n2;x=y\r\nde\r\n0\r\n\r\n"),
        Ok((b"abcde".to_vec(), true))
    );
    assert_eq!(
        decode_chunks(b"3\r\nabc\r\nA\r\ndef"),
        Ok((b"abc".to_vec(), false))
    );
    assert_eq!(decode_chunks(b"3"), Ok((Vec::new(), false)));
    for bad in [&b"x\r\n"[..], b"\xff\r\n", b"\r\n", b"ffffffffffffffff\r\n", b"1ffffffffffffffff\r\n"] {
        assert_eq!(decode_chunks(bad), Err("invalid chunk size".to_string()));
    }
}

#[test]
fn responses_are_read() {
    let response = parse_response(
        b"HTTP/1.1 200 OK\r\nETag: \"v\"\r\nTransfer-Encoding: Chunked\r\n\r\n2\r\nok\r\n0\r\n\r\n",
    )
    .expect("a response");
    assert_eq!(response.status, 200);
    assert_eq!(response.etag.as_deref(), Some("\"v\""));
    assert_eq!(response.body, b"ok");
    let plain = parse_response(b"HTTP/1.1 404 x\r\n\r\nraw").expect("a response");
    assert_eq!((plain.status, plain.etag), (404, None));
    assert_eq!(plain.body, b"raw");
    let error = |raw: &[u8]| parse_response(raw).err().expect("an error");
    assert_eq!(error(b"HTTP/1.1 200 OK\r\n"), "truncated response");
    assert_eq!(error(b"HTTP/1.1\r\n\r\n"), "invalid response status");
    assert_eq!(error(b"\xff\r\n\r\n"), "invalid response head");
    assert_eq!(
        error(b"H 200 \r\ntransfer-encoding:chunked\r\n\r\nzz\r\n"),
        "invalid chunk size"
    );
}

#[test]
fn status_and_its_errors() {
    assert_eq!(
        api().status(reply("HTTP/1.1 200 OK\r\n\r\n{}")),
        Ok("{}".to_string())
    );
    assert_eq!(
        api().status(reply("HTTP/1.1 500 no\r\n\r\n oops \n")),
        Err("read status: tailscaled answered 500 oops".to_string())
    );
    assert_eq!(
        api().status(reply("HTTP/1.1 403 no\r\n\r\ndenied")),
        Err("read status: tailscaled denied access (denied); an administrator can allow it with: sudo tailscale set --operator=$USER".to_string())
    );
    assert_eq!(
        api().status(Reply::Unreachable("refused".to_string())),
        Err("connect to tailscaled at /run/ts.sock: refused".to_string())
    );
    assert_eq!(
        api().status(Reply::Unusable("bad".to_string())),
        Err("configure tailscaled socket: bad".to_string())
    );
    assert_eq!(
        api().status(Reply::Broken("reset".to_string())),
        Err("GET /localapi/v0/status?peers=false: reset".to_string())
    );
    assert_eq!(
        api().status(Reply::Bytes(vec![b'a'; 4 * 1024 * 1024 + 1])),
        Err("GET /localapi/v0/status?peers=false: response too large".to_string())
    );
    assert_eq!(
        api().status(reply("nothing")),
        Err("GET /localapi/v0/status?peers=false: truncated response".to_string())
    );
    let mut raw = b"HTTP/1.1 200 OK\r\n\r\n".to_vec();
    raw.push(0xff);
    assert_eq!(
        api().status(Reply::Bytes(raw)),
        Err("parse status: invalid utf-8 sequence of 1 bytes from index 0".to_string())
    );
}

#[test]
fn serve_config_and_its_version() {
    assert_eq!(
        api().serve_config(reply("HTTP/1.1 200 OK\r\nEtag: v7 \r\n\r\nnull")),
        Ok(("null".to_string(), "v7".to_string()))
    );
    assert_eq!(
        api().serve_config(reply("HTTP/1.1 200 OK\r\n\r\nnull")),
        Err("read Serve config: tailscaled sent no ETag".to_string())
    );
    assert_eq!(
        api().serve_config(reply("HTTP/1.1 400 x\r\n\r\nno")),
        Err("read Serve config: tailscaled answered 400 no".to_string())
    );
}

#[test]
fn the_first_notification_opens_the_session() {
    assert_eq!(first_notify(b"HTTP/1.1 200 OK\r\n"), Ok(None));
    assert_eq!(first_notify(b"HTTP/1.1 500 OK\r\n\r\n{}\n"), Ok(None));
    let mut raw = Vec::new();
    let part = WatchEvent::Data(b"HTTP/1.1 200 OK\r\n\r\n{\"SessionID\"".to_vec());
    assert!(matches!(watch(&mut raw, part), WatchStep::More));
    assert!(matches!(
        watch(&mut raw, WatchEvent::Interrupted),
        WatchStep::More
    ));
    let WatchStep::Line(line) = watch(&mut raw, WatchEvent::Data(b":\"s\"}\nmore".to_vec())) else {
        panic!("expected a line");
    };
    assert_eq!(line, b"{\"SessionID\":\"s\"}");
    let failed = |raw: &[u8], event: WatchEvent| match watch(&mut raw.to_vec(), event) {
        WatchStep::Failed(error) => error,
        _ => panic!("expected a failure"),
    };
    assert_eq!(
        failed(b"HTTP/1.1 403 no\r\n\r\nx", WatchEvent::Closed),
        "watch tailscaled: tailscaled denied access (x); an administrator can allow it with: sudo tailscale set --operator=$USER"
    );
    assert_eq!(failed(b"", WatchEvent::Closed), "truncated response");
    assert_eq!(
        failed(b"", WatchEvent::Failed("reset".to_string())),
        "watch tailscaled: reset"
    );
    assert_eq!(
        failed(b"", WatchEvent::Data(vec![b'a'; 4 * 1024 * 1024 + 1])),
        "watch tailscaled: response too large"
    );
    assert_eq!(session_id(Ok("s".to_string())), Ok("s".to_string()));
    assert_eq!(
        session_id(Ok(String::new())),
        Err("tailscaled sent no Serve session ID".to_string())
    );
    assert_eq!(
        session_id(Err("bad".to_string())),
        Err("parse tailscaled notification: bad".to_string())
    );
}

#[test]
fn sessions_are_drained() {
    assert_eq!(drain(&ReadEvent::Data(vec![1])), None);
    assert_eq!(drain(&ReadEvent::Interrupted), None);
    assert_eq!(drain(&ReadEvent::TimedOut), Some(true));
    assert_eq!(drain(&ReadEvent::Closed), Some(false));
    assert_eq!(drain(&ReadEvent::Failed("x".to_string())), Some(false));
}

#[test]
fn routes_are_added_without_touching_other_fields() {
    let config = r#"{"TCP":{"1":{"a":[1,2]}},"Odd":"kept","Foreground":{"other":{"x":1}}}"#;
    let text = with_foreground_route(config, "me", 9119, "n.ts.net:9119", "http://127.0.0.1:4")
        .expect("a document");
    let found: Value = serde_json::from_str(&text).expect("JSON");
    let expected: Value = serde_json::from_str(
        r#"{"TCP":{"1":{"a":[1,2]}},"Odd":"kept","Foreground":{"other":{"x":1},"me":{
            "TCP":{"9119":{"HTTPS":true}},
            "Web":{"n.ts.net:9119":{"Handlers":{"/":{"Proxy":"http://127.0.0.1:4"}}}}}}}"#,
    )
    .expect("JSON");
    assert_eq!(found, expected);
    for empty in ["null", "{}", r#"{"Foreground":null}"#] {
        let text = with_foreground_route(empty, "me", 1, "n:1", "b").expect("a document");
        let found: Value = serde_json::from_str(&text).expect("JSON");
        assert_eq!(
            found["Foreground"]["me"]["TCP"]["1"]["HTTPS"],
            Value::Bool(true)
        );
    }
}

#[test]
fn documents_that_take_no_route() {
    let error = |config: &str| {
        with_foreground_route(config, "me", 1, "n:1", "b")
            .err()
            .expect("an error")
    };
    assert_eq!(error("[]"), "parse Serve config: expected an object");
    assert_eq!(
        error(r#"{"Foreground":3}"#),
        "parse Serve config: Foreground is not an object"
    );
    assert_eq!(
        error("{"),
        "parse Serve config: EOF while parsing an object at line 1 column 1"
    );
}

#[test]
fn ports_in_use_are_never_taken_over() {
    let mut used = ServeConfig::empty();
    used.tcp.push("80".to_string());
    assert_eq!(
        route_body("{}", Ok(used), "me", 80, "n:80", "b"),
        Err(port_taken_message(80))
    );
    assert_eq!(
        port_taken_message(80),
        "HTTPS port 80 is already configured in Tailscale Serve; choose another with --https"
    );
    assert_eq!(
        route_body("{}", Err("bad".to_string()), "me", 80, "n:80", "b"),
        Err("unsupported Serve status: bad".to_string())
    );
    assert!(route_body("null", Err("unused".to_string()), "me", 80, "n:80", "b").is_ok());
    assert!(route_body("{}", Ok(ServeConfig::empty()), "me", 80, "n:80", "b").is_ok());
}

#[test]
fn changed_configs_are_retried() {
    let response = |status: u16| Response {
        status,
        etag: None,
        body: b"why".to_vec(),
    };
    assert!(matches!(open_route(1, &response(200)), RouteStep::Done));
    assert!(matches!(
        open_route(1, &response(412)),
        RouteStep::Retry(100)
    ));
    assert!(matches!(
        open_route(3, &response(412)),
        RouteStep::Retry(300)
    ));
    let RouteStep::Failed(error) = open_route(4, &response(412)) else {
        panic!("expected a failure");
    };
    assert_eq!(error, "set Serve config: tailscaled answered 412 why");
    assert_eq!(
        describe_failure(&response(403), "set Serve config"),
        "set Serve config: tailscaled denied access (why); an administrator can allow it with: sudo tailscale set --operator=$USER"
    );
}

#[test]
fn sent_chunks_come_back_whole_or_cut() {
    let chunks: Vec<Vec<u8>> = vec![b"abc".to_vec(), vec![13; 26], b"\r\n0\r\n\r\n".to_vec()];
    let mut sent = Vec::new();
    let mut ends = vec![0];
    for chunk in &chunks {
        sent.extend_from_slice(format!("{:x}\r\n", chunk.len()).as_bytes());
        sent.extend_from_slice(chunk);
        sent.extend_from_slice(b"\r\n");
        ends.push(sent.len());
    }
    let body = sent.len();
    sent.extend_from_slice(b"0\r\n\r\n");
    assert_eq!(decode_chunks(&sent), Ok((chunks.concat(), true)));
    for cut in 0..body + 3 {
        let whole = ends.iter().filter(|end| **end <= cut).count() - 1;
        assert_eq!(
            decode_chunks(&sent[..cut]),
            Ok((chunks[..whole].concat(), false)),
            "{cut}"
        );
    }
}
