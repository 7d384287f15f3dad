use ait_dispatch::client::{
    daemon_alive, decode_body, index_response_text, query_response_text, AITExtension,
    DaemonError,
};
use ait_dispatch::dispatch::{
    build_index_request, build_task_request, dispatch_after_probe, dispatch_start, render_outcome,
    Invocation, Op, ProbeStep, Step,
};
use ait_dispatch::json::{get_field, to_json_text, to_pretty_text, JsonValue};

const DOWN_MESSAGE: &str = "Error: AIT daemon is not running.\n\nPlease start it with:\n```bash\ncd daemon\nnpm start <project-path>\n```";

fn inv(name: &str) -> Invocation {
    Invocation {
        name: name.to_string(),
        argument: None,
        current_file: None,
        selected_text: None,
        project_path: "/work/project".to_string(),
    }
}

fn parse_str(text: &str) -> Option<JsonValue> {
    decode_body(text)
}

#[test]
fn daemon_down_yields_remediation_for_all_known_commands() {
    for name in [
        "explain_file",
        "refactor_function",
        "debug_test",
        "summarize_standards",
        "index_project",
    ] {
        match dispatch_after_probe(&inv(name), false) {
            ProbeStep::Reply(t) => assert_eq!(t, DOWN_MESSAGE),
            ProbeStep::Call(_) => panic!("no daemon call may happen when the daemon is down"),
        }
    }
}

#[test]
fn success_output_begins_with_fixed_heading_for_all_known_commands() {
    let cases = [
        ("explain_file", "## File Explanation\n\n"),
        ("refactor_function", "## Refactoring Result\n\n"),
        ("debug_test", "## Test Analysis\n\n"),
        ("summarize_standards", "## Project Standards\n\n"),
        ("index_project", "## Indexing Result\n\n"),
    ];
    for (name, heading) in cases {
        let invocation = inv(name);
        let step = dispatch_after_probe(&invocation, true);
        let req = match step {
            ProbeStep::Call(q) => q,
            ProbeStep::Reply(t) => panic!("expected a daemon call, got reply {t}"),
        };
        let body = "{\"success\":true}";
        let outcome = match req.op {
            Op::Index => index_response_text(body),
            Op::Query => query_response_text(body),
        };
        let text = render_outcome(&invocation, outcome);
        assert!(text.starts_with(heading), "{name}: {text}");
    }
}

#[test]
fn index_reports_counted_files() {
    let r = index_response_text("{\"success\":true,\"data\":{\"files_indexed\":7}}");
    assert_eq!(r.unwrap_or_else(|_| panic!("expected success")), "Indexed 7 files successfully");
}

#[test]
fn index_without_count_reports_generic_success() {
    let r = index_response_text("{\"success\":true,\"data\":{}}");
    assert_eq!(r.unwrap_or_else(|_| panic!("expected success")), "Project indexed successfully");
}

#[test]
fn query_failure_carries_daemon_message() {
    let r = query_response_text(
        "{\"success\":false,\"error\":{\"code\":\"X\",\"message\":\"boom\"}}",
    );
    let e = match r {
        Err(e) => e,
        Ok(t) => panic!("expected failure, got {t}"),
    };
    match &e {
        DaemonError::Remote(m) => assert_eq!(m, "boom"),
        DaemonError::Transport(m) => panic!("expected a remote error, got transport {m}"),
    }
    let out = render_outcome(&inv("explain_file"), Err(e));
    assert_eq!(out, "Error: boom");
}

#[test]
fn query_failure_without_error_object_reports_unknown() {
    let r = query_response_text("{\"success\":false}");
    let out = render_outcome(&inv("explain_file"), r);
    assert_eq!(out, "Error: Unknown error");
}

#[test]
fn transport_failure_renders_error_prefix() {
    let out = render_outcome(
        &inv("explain_file"),
        Err(DaemonError::Transport("Failed to send query request".to_string())),
    );
    assert_eq!(out, "Error: Failed to send query request");
    assert!(out.starts_with("Error: "));
}

#[test]
fn undecodable_body_is_a_transport_failure() {
    match query_response_text("not json at all") {
        Err(DaemonError::Transport(m)) => assert_eq!(m, "Failed to parse response"),
        Err(DaemonError::Remote(m)) => panic!("expected transport, got remote {m}"),
        Ok(t) => panic!("expected failure, got {t}"),
    }
}

#[test]
fn unknown_identifier_is_answered_without_any_network_step() {
    match dispatch_start(&inv("frobnicate")) {
        Step::Reply(t) => assert_eq!(t, "Unknown command: frobnicate"),
        Step::Probe => panic!("an unknown command must not reach the daemon"),
    }
}

#[test]
fn refactor_without_argument_defaults_description() {
    let req = build_task_request(&inv("refactor_function"));
    let body = to_json_text(&req);
    assert_eq!(
        body,
        "{\"task\":\"Refactor this function: Improve code quality\",\"context\":{\"task\":\"Refactor this function: Improve code quality\"}}",
    );
}

#[test]
fn task_request_round_trips_with_task_in_both_places() {
    let mut invocation = inv("explain_file");
    invocation.current_file = Some("src/main.rs".to_string());
    let req = build_task_request(&invocation);
    let body = to_json_text(&req);
    let back = parse_str(&body).unwrap_or_else(|| panic!("round trip must parse"));
    assert_eq!(to_json_text(&back), body);
    let task = "Explain this file: src/main.rs";
    match get_field(&back, "task") {
        Some(JsonValue::Str(s)) => assert_eq!(s, task),
        _ => panic!("task missing at top level"),
    }
    let ctx = match get_field(&back, "context") {
        Some(c) => c,
        None => panic!("context missing"),
    };
    match get_field(ctx, "task") {
        Some(JsonValue::Str(s)) => assert_eq!(s, task),
        _ => panic!("task missing inside context"),
    }
}

#[test]
fn refactor_context_carries_file_selection_and_files() {
    let mut invocation = inv("refactor_function");
    invocation.argument = Some("extract helper".to_string());
    invocation.current_file = Some("a.rs".to_string());
    invocation.selected_text = Some("fn x".to_string());
    let body = to_json_text(&build_task_request(&invocation));
    assert_eq!(
        body,
        "{\"task\":\"Refactor this function: extract helper\",\"context\":{\"current_file\":\"a.rs\",\"current_symbol\":\"fn x\",\"files\":[\"a.rs\"],\"task\":\"Refactor this function: extract helper\"}}",
    );
}

#[test]
fn index_request_body_names_project_and_null_files() {
    let body = to_json_text(&build_index_request(&"/work/project".to_string()));
    assert_eq!(body, "{\"project_path\":\"/work/project\",\"files\":null}");
}

#[test]
fn index_project_routes_to_index_operation() {
    match dispatch_after_probe(&inv("index_project"), true) {
        ProbeStep::Call(q) => {
            assert!(matches!(q.op, Op::Index));
            assert_eq!(q.body, "{\"project_path\":\"/work/project\",\"files\":null}");
        }
        ProbeStep::Reply(t) => panic!("expected a call, got {t}"),
    }
}

#[test]
fn query_result_data_is_pretty_printed() {
    let r = query_response_text(
        "{\"success\":true,\"data\":{\"result\":{\"data\":{\"answer\":42}}}}",
    );
    assert_eq!(r.unwrap_or_else(|_| panic!("expected success")), "{\n  \"answer\": 42\n}");
}

#[test]
fn query_without_result_data_reports_generic_completion() {
    let r = query_response_text("{\"success\":true,\"data\":{\"status\":\"done\"}}");
    assert_eq!(r.unwrap_or_else(|_| panic!("expected success")), "Query completed");
}

#[test]
fn daemon_url_uses_configured_port() {
    let client = AITExtension::new();
    assert_eq!(client.daemon_port, 3001);
    assert_eq!(client.get_daemon_url(), "http://localhost:3001");
    assert_eq!(client.status_url(), "http://localhost:3001/status");
    assert_eq!(client.index_url(), "http://localhost:3001/index");
    assert_eq!(client.query_url(), "http://localhost:3001/query");
}

#[test]
fn liveness_accepts_exactly_2xx() {
    assert!(daemon_alive(Some(200)));
    assert!(daemon_alive(Some(204)));
    assert!(daemon_alive(Some(299)));
    assert!(!daemon_alive(Some(300)));
    assert!(!daemon_alive(Some(404)));
    assert!(!daemon_alive(Some(199)));
    assert!(!daemon_alive(None));
}

#[test]
fn strings_escape_and_round_trip() {
    let v = JsonValue::Str("a\"b\\c\nd\te\r".to_string());
    let text = to_json_text(&v);
    assert_eq!(text, "\"a\\\"b\\\\c\\nd\\te\\r\"");
    let back = parse_str(&text).unwrap_or_else(|| panic!("escaped string must parse"));
    match back {
        JsonValue::Str(s) => assert_eq!(s, "a\"b\\c\nd\te\r"),
        _ => panic!("expected a string"),
    }
}

#[test]
fn numbers_round_trip_including_extremes() {
    for n in [0i64, 7, -1, 42, i64::MAX, i64::MIN] {
        let text = to_json_text(&JsonValue::Int(n));
        let back = parse_str(&text).unwrap_or_else(|| panic!("{text} must parse"));
        match back {
            JsonValue::Int(m) => assert_eq!(m, n),
            _ => panic!("expected a number"),
        }
    }
    assert_eq!(to_json_text(&JsonValue::Int(-42)), "-42");
}

#[test]
fn malformed_documents_are_rejected() {
    for bad in ["", "{", "[1,]", "{\"a\":}", "tru", "\"unterminated", "{\"a\":1", "nul"] {
        assert!(parse_str(bad).is_none(), "{bad:?} must not parse");
    }
}

#[test]
fn envelope_with_wrong_success_type_is_transport_failure() {
    match index_response_text("{\"success\":\"yes\"}") {
        Err(DaemonError::Transport(m)) => assert_eq!(m, "Failed to parse response"),
        _ => panic!("a non-boolean success flag must fail decoding"),
    }
}

#[test]
fn null_data_and_null_error_are_tolerated() {
    let r = index_response_text("{\"success\":true,\"data\":null,\"error\":null}");
    assert_eq!(r.unwrap_or_else(|_| panic!("expected success")), "Project indexed successfully");
    let q = query_response_text("{\"success\":false,\"error\":null}");
    match q {
        Err(DaemonError::Remote(m)) => assert_eq!(m, "Unknown error"),
        _ => panic!("expected a remote error"),
    }
}

#[test]
fn unknown_command_renders_even_after_probe() {
    match dispatch_after_probe(&inv("frobnicate"), true) {
        ProbeStep::Reply(t) => assert_eq!(t, "Unknown command: frobnicate"),
        ProbeStep::Call(_) => panic!("an unknown command must not reach the daemon"),
    }
}

#[test]
fn pretty_printing_nests_and_indents() {
    let doc = parse_str("{\"a\":[1,2],\"b\":{\"c\":\"x\"},\"d\":[]}")
        .unwrap_or_else(|| panic!("document must parse"));
    assert_eq!(
        to_pretty_text(&doc),
        "{\n  \"a\": [\n    1,\n    2\n  ],\n  \"b\": {\n    \"c\": \"x\"\n  },\n  \"d\": []\n}",
    );
}
