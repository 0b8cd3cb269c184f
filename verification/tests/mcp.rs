use needle::engine::{QueryError, QueryStats};
use needle::ipc::{
    bad_request_response, err_response, respond, respond_all, WireHit, WireResponse, DEFAULT_ADDR,
};
use needle::machine::Answer;
use needle::mcp::{
    error_reply, finish_tool_call, handle_line, handle_request, handle_tool_call, reply, tool_error,
    tools_list, Handling, Outcome, Request, ToolCall,
};
use needle::search::Hit;
use serde_json::Value;

fn answer(handling: Handling) -> String {
    match handling {
        Handling::Answer(line) => line,
        _ => panic!("an answer was expected"),
    }
}

fn json(text: &str) -> Value {
    serde_json::from_str(text).unwrap()
}

fn no_call() -> ToolCall {
    ToolCall { name: None, pattern: None, root: None, max_results: None, respect_gitignore: None }
}

fn response(hits: Vec<WireHit>) -> WireResponse {
    let returned = hits.len();
    WireResponse {
        ok: true,
        error: None,
        hits,
        drive: "C".to_string(),
        scanned: 1234,
        returned,
        truncated: false,
    }
}

#[test]
fn initialize_is_answered() {
    let line = r#"{"jsonrpc":"2.0","id":1,"method":"initialize","params":{}}"#;
    assert_eq!(
        answer(handle_line(line, "0.1.3")),
        concat_lines(&[
            r#"{"id":1,"jsonrpc":"2.0","result":{"capabilities":{"tools":{}},"#,
            r#""protocolVersion":"2024-11-05","serverInfo":{"name":"needle","version":"0.1.3"}}}"#,
        ])
    );
}

fn concat_lines(parts: &[&str]) -> String {
    parts.concat()
}

#[test]
fn list_of_tools_is_json() {
    let list = json(&tools_list());
    let tool = &list["tools"][0];
    assert_eq!(tool["name"], "fast_glob");
    let properties = &tool["inputSchema"]["properties"];
    assert_eq!(properties["max_results"]["default"], 200);
    assert_eq!(properties["respect_gitignore"]["default"], true);
    assert_eq!(
        properties["root"]["description"],
        "Absolute directory to scope results to, e.g. \"D:\\\\Workspace\\\\project\". Empty = whole volume."
    );
    assert_eq!(tool["inputSchema"]["required"][0], "pattern");
    assert_eq!(list.to_string(), tools_list());
    let line = answer(handle_line(r#"{"id":"x","method":"tools/list"}"#, "1"));
    let reply = json(&line);
    assert_eq!(reply["id"], "x");
    assert_eq!(reply["result"], list);
}

#[test]
fn ping_is_answered_with_the_id() {
    assert_eq!(
        answer(handle_line(r#" {"id": {"a": [1, 2.5]}, "method": "ping"} "#, "1")),
        r#"{"id":{"a":[1,2.5]},"jsonrpc":"2.0","result":{}}"#
    );
    assert_eq!(
        answer(handle_line(r#"{"method":"ping"}"#, "1")),
        r#"{"id":null,"jsonrpc":"2.0","result":{}}"#
    );
}

#[test]
fn unknown_methods_are_refused_and_notifications_passed_over() {
    assert_eq!(
        answer(handle_line(r#"{"id":7,"method":"no\n\"such"}"#, "1")),
        r#"{"error":{"code":-32601,"message":"method not found: no\n\"such"},"id":7,"jsonrpc":"2.0"}"#
    );
    assert_eq!(
        answer(handle_line(r#"{"id":null,"method":3}"#, "1")),
        r#"{"error":{"code":-32601,"message":"method not found: "},"id":null,"jsonrpc":"2.0"}"#
    );
    assert!(matches!(
        handle_line(r#"{"method":"notifications/initialized"}"#, "1"),
        Handling::Skip
    ));
    assert!(matches!(handle_line("[1]", "1"), Handling::Skip));
}

#[test]
fn blank_and_malformed_lines() {
    assert!(matches!(handle_line("", "1"), Handling::Skip));
    assert!(matches!(handle_line(" \t\r\u{3000}", "1"), Handling::Skip));
    match handle_line("{", "1") {
        Handling::Malformed(reason) => {
            assert_eq!(reason, "EOF while parsing an object at line 1 column 1")
        }
        _ => panic!("the line is not JSON"),
    }
}

#[test]
fn tool_call_is_forwarded() {
    let line = concat_lines(&[
        r#"{"id":3,"method":"tools/call","params":{"name":"fast_glob","arguments":"#,
        r#"{"pattern":"**/*.rs","root":"D:\\w","max_results":5,"respect_gitignore":false}}}"#,
    ]);
    match handle_line(&line, "1") {
        Handling::Forward { id, query } => {
            assert_eq!(id.as_deref(), Some("3"));
            assert_eq!(query.pattern, "**/*.rs");
            assert_eq!(query.root, "D:\\w");
            assert_eq!(query.max_results, 5);
            assert!(!query.respect_gitignore);
        }
        _ => panic!("the daemon should be asked"),
    }
}

#[test]
fn tool_call_defaults() {
    let line = concat_lines(&[
        r#"{"id":3,"method":"tools/call","params":{"name":"fast_glob","arguments":"#,
        r#"{"pattern":"x","root":1,"max_results":-5,"respect_gitignore":"no"}}}"#,
    ]);
    match handle_line(&line, "1") {
        Handling::Forward { query, .. } => {
            assert_eq!(query.root, "");
            assert_eq!(query.max_results, 200);
            assert!(query.respect_gitignore);
        }
        _ => panic!("the daemon should be asked"),
    }
}

#[test]
fn bad_tool_calls_are_refused() {
    let id = Some("9".to_string());
    let call = ToolCall { name: Some("grep".to_string()), ..no_call() };
    assert_eq!(
        answer(handle_tool_call(id.clone(), call)),
        r#"{"error":{"code":-32602,"message":"unknown tool: grep"},"id":9,"jsonrpc":"2.0"}"#
    );
    let call = ToolCall { name: Some("fast_glob".to_string()), ..no_call() };
    assert_eq!(
        answer(handle_tool_call(id, call)),
        r#"{"id":9,"jsonrpc":"2.0","result":{"content":[{"text":"pattern is required","type":"text"}],"isError":true}}"#
    );
    assert_eq!(
        answer(handle_line(r#"{"id":1,"method":"tools/call"}"#, "1")),
        r#"{"error":{"code":-32602,"message":"unknown tool: "},"id":1,"jsonrpc":"2.0"}"#
    );
}

#[test]
fn requests_with_an_id_are_never_passed_over() {
    for method in ["initialize", "tools/list", "ping", "whatever", ""] {
        let request = Request {
            id: Some("1".to_string()),
            method: Some(method.to_string()),
            call: no_call(),
        };
        let line = answer(handle_request(request, "1"));
        assert_eq!(json(&line)["id"], 1);
    }
}

#[test]
fn found_paths_are_listed() {
    let hits = vec![
        WireHit { path: "C:\\a \"b\"".to_string(), is_dir: false },
        WireHit { path: "C:\\c".to_string(), is_dir: true },
    ];
    let outcome = Outcome::Response { response: response(hits), elapsed: "0.9".to_string() };
    assert_eq!(
        finish_tool_call(&Some("2".to_string()), outcome),
        concat_lines(&[
            r#"{"id":2,"jsonrpc":"2.0","result":{"content":["#,
            r#"{"text":"C:\\a \"b\"\nC:\\c","type":"text"},"#,
            r#"{"text":"2 match(es) in 0.9ms (scanned 1234 entries on drive C)","type":"text"}]}}"#,
        ])
    );
}

#[test]
fn nothing_found_and_cut_off() {
    let mut none = response(vec![]);
    none.truncated = true;
    let outcome = Outcome::Response { response: none, elapsed: "12.0".to_string() };
    let line = finish_tool_call(&None, outcome);
    let reply = json(&line);
    assert_eq!(reply["id"], Value::Null);
    assert_eq!(reply["result"]["content"][0]["text"], "(no matches)");
    assert_eq!(
        reply["result"]["content"][1]["text"],
        "0 match(es), truncated at max_results in 12.0ms (scanned 1234 entries on drive C)"
    );
    assert!(reply["result"].get("isError").is_none());
}

#[test]
fn failures_of_the_daemon_are_tool_errors() {
    let id = Some("2".to_string());
    let outcome = Outcome::Response { response: err_response("no\tindex"), elapsed: String::new() };
    assert_eq!(
        finish_tool_call(&id, outcome),
        r#"{"id":2,"jsonrpc":"2.0","result":{"content":[{"text":"no\tindex","type":"text"}],"isError":true}}"#
    );
    let mut silent = err_response("");
    silent.error = None;
    let outcome = Outcome::Response { response: silent, elapsed: String::new() };
    assert_eq!(
        json(&finish_tool_call(&id, outcome))["result"]["content"][0]["text"],
        "unknown daemon error"
    );
    let outcome = Outcome::Failed("cannot reach".to_string());
    assert_eq!(
        json(&finish_tool_call(&id, outcome))["result"]["content"][0]["text"],
        "cannot reach"
    );
}

#[test]
fn answers_are_one_line_whatever_they_hold() {
    let id = Some("1".to_string());
    let odd = "a\nb\r\u{0}\u{1f}\u{8}\u{c}\u{7f}é\\\"";
    for line in [tool_error(&id, odd), error_reply(&id, i64::MIN, odd)] {
        assert!(!line.contains('\n'));
        assert!(!line.contains('\r'));
    }
    let read = json(&tool_error(&id, odd));
    assert_eq!(read["result"]["content"][0]["text"], odd);
    let read = json(&error_reply(&id, i64::MIN, odd));
    assert_eq!(read["error"]["code"], i64::MIN);
    assert_eq!(read["error"]["message"], odd);
    assert!(tool_error(&id, odd).contains(r"a\nb\r\u0000\u001f\b\f"));
    assert_eq!(reply(&None, "[]"), r#"{"id":null,"jsonrpc":"2.0","result":[]}"#);
}

#[test]
fn id_does_not_break_the_line() {
    let id = "{\n  \"a\\nb\":\n  [1,\n \"x\\r\\ny\"]\n}";
    for method in ["initialize", "tools/list", "ping", "nothing", "tools/call"] {
        let line = format!("{{\"id\":{},\n\"method\":\"{}\"}}", id, method);
        let sent = answer(handle_line(&line, "1\n2"));
        assert!(!sent.contains('\n'), "{}", sent);
        assert_eq!(json(&sent)["id"], json(id));
    }
    let call = format!(
        "{{\"id\":{},\"method\":\"tools/call\",\"params\":{}}}",
        id, r#"{"name":"fast_glob","arguments":{"pattern":"x"}}"#,
    );
    match handle_line(&call, "1") {
        Handling::Forward { id: kept, .. } => {
            let sent = finish_tool_call(&kept, Outcome::Failed("a\nb".to_string()));
            assert!(!sent.contains('\n'), "{}", sent);
            assert_eq!(json(&sent)["id"], json(id));
        }
        _ => panic!("the call should be forwarded"),
    }
}

#[test]
fn responses_carry_what_was_found() {
    let stats = QueryStats { drive: 'D', scanned: 9, returned: 1, truncated: true };
    let hits = vec![Hit { path: "D:\\x".to_string(), is_dir: true }];
    let response = respond(Ok((hits, stats)));
    assert!(response.ok);
    assert!(response.error.is_none());
    assert_eq!(response.hits[0].path, "D:\\x");
    assert!(response.hits[0].is_dir);
    assert_eq!(response.drive, "D");
    assert_eq!((response.scanned, response.returned, response.truncated), (9, 1, true));

    let response = respond(Err(QueryError::BadPattern("bad".to_string())));
    assert!(!response.ok);
    assert_eq!(response.error.as_deref(), Some("bad"));
    assert!(response.hits.is_empty());
    let response = respond(Err(QueryError::NotIndexed));
    assert_eq!(response.error.as_deref(), Some("drive not indexed"));

    let response = respond_all(Answer {
        hits: vec![Hit { path: "D:\\x".to_string(), is_dir: false }],
        drives: "CD".to_string(),
        scanned: 3,
        truncated: false,
    });
    assert_eq!((response.drive.as_str(), response.returned), ("CD", 1));

    let response = bad_request_response("EOF");
    assert_eq!(response.error.as_deref(), Some("bad request: EOF"));
    assert_eq!(DEFAULT_ADDR, "127.0.0.1:48923");
}
