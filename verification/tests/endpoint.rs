use log_scouter::json::{read_json, Json};
use log_scouter::mcp::{
    answer_call, bytes_of, endpoint_url, gate, handle_message, handle_post, hex_text,
    random_token, token_from, Gate, Step, ToolOutcome, Verb,
};

/// POST a JSON body and return `(status_code, body)`, as far as no tool is run.
fn post(token: Option<&str>, body: &str, auth: Option<&str>) -> (u16, String) {
    let header = auth.map(|presented| format!("Bearer {presented}"));
    match gate(token, header.as_deref(), Verb::Post) {
        Gate::Answer(status, body) => (status, body.to_string()),
        Gate::Read => match handle_post(Some(body)) {
            Step::Answer { status, body } => (status, body),
            Step::Call { .. } => panic!("a tool call"),
        },
    }
}

#[test]
fn random_token_is_32_hex_chars() {
    let token = random_token();
    assert_eq!(token.len(), 32);
    assert!(token.chars().all(|c| c.is_ascii_hexdigit()));
    assert_ne!(token, random_token(), "tokens should differ");
}

#[test]
fn initialize_and_tools_list_without_auth() {
    let (status, body) = post(
        None,
        "{\"jsonrpc\":\"2.0\",\"id\":1,\"method\":\"initialize\",\"params\":{}}",
        None,
    );
    assert_eq!(status, 200);
    assert!(body.contains("\"protocolVersion\""), "body: {body}");
    assert!(body.contains("log-scouter"), "body: {body}");

    let (status, body) = post(
        None,
        "{\"jsonrpc\":\"2.0\",\"id\":2,\"method\":\"tools/list\"}",
        None,
    );
    assert_eq!(status, 200);
    // The tools advertised over MCP are exactly the assistant's tool set.
    for tool in ["list_sources", "add_filter", "search", "count_matches"] {
        assert!(body.contains(tool), "missing {tool} in {body}");
    }
}

#[test]
fn a_notification_gets_no_envelope() {
    // No id => a notification => 202 Accepted with an empty body.
    let (status, body) = post(
        None,
        "{\"jsonrpc\":\"2.0\",\"method\":\"notifications/initialized\"}",
        None,
    );
    assert_eq!(status, 202);
    assert!(body.trim().is_empty(), "body: {body}");
}

#[test]
fn auth_is_enforced_when_a_token_is_set() {
    let token = "secret-token".to_string();
    let init = "{\"jsonrpc\":\"2.0\",\"id\":1,\"method\":\"initialize\",\"params\":{}}";

    // No header, or the wrong token, is rejected; the right token gets in.
    assert_eq!(post(Some(&token), init, None).0, 401);
    assert_eq!(post(Some(&token), init, Some("wrong")).0, 401);
    assert_eq!(post(Some(&token), init, Some(&token)).0, 200);
}

// ---- answers and refusals ---------------------------------------------------------

#[test]
fn only_posts_are_read() {
    assert_eq!(gate(None, None, Verb::Delete), Gate::Answer(200, ""));
    assert_eq!(gate(None, None, Verb::Other), Gate::Answer(405, ""));
    assert_eq!(
        gate(Some("t"), Some("t"), Verb::Delete),
        Gate::Answer(401, "{\"error\":\"unauthorized\"}")
    );
    assert_eq!(gate(Some("t"), Some(" Bearer t "), Verb::Post), Gate::Read);
}

#[test]
fn the_protocol_asked_for_is_confirmed() {
    let (_, body) = post(
        None,
        "{\"id\":1,\"method\":\"initialize\",\"params\":{\"protocolVersion\":\"2024-11-05\"}}",
        None,
    );
    assert!(body.contains("\"protocolVersion\":\"2024-11-05\""), "{body}");
    let (_, body) = post(None, "{\"id\":1,\"method\":\"initialize\"}", None);
    assert!(body.contains("\"protocolVersion\":\"2025-06-18\""), "{body}");
}

#[test]
fn pings_unknown_methods_and_bad_bodies_are_answered() {
    assert_eq!(
        post(None, "{\"id\":7,\"method\":\"ping\"}", None),
        (
            200,
            "{\"id\":7,\"jsonrpc\":\"2.0\",\"result\":{}}".to_string()
        )
    );
    let (status, body) = post(None, "{\"id\":7,\"method\":\"nope\"}", None);
    assert_eq!(status, 200);
    assert!(body.contains("-32601"), "{body}");
    let (status, body) = post(None, "{", None);
    assert_eq!(status, 400);
    assert!(body.contains("-32700"), "{body}");
    match handle_post(None) {
        Step::Answer { status, body } => {
            assert_eq!(status, 400);
            assert!(body.contains("could not read body"), "{body}");
        }
        Step::Call { .. } => panic!("a tool call"),
    }
}

#[test]
fn a_tool_call_is_handed_over_and_its_outcome_wrapped() {
    let message = "{\"id\":\"a\",\"method\":\"tools/call\",\"params\":{\"name\":\"search\",\"arguments\":{\"query\":\"x\"}}}";
    match handle_message(read_json(message)) {
        Step::Call { id, tool, args } => {
            assert_eq!(tool, "search");
            assert_eq!(args.get_str("query"), Some("x"));
            let body = answer_call(id, &ToolOutcome::Done("found".to_string()));
            assert!(body.contains("\"text\":\"found\""), "{body}");
            assert!(body.contains("\"isError\":false"), "{body}");
            assert!(body.contains("\"id\":\"a\""), "{body}");
        }
        Step::Answer { body, .. } => panic!("answered {body}"),
    }
    for outcome in [
        ToolOutcome::Failed("no".to_string()),
        ToolOutcome::Gone,
        ToolOutcome::Late,
    ] {
        assert!(answer_call(Json::Null, &outcome).contains("\"isError\":true"));
    }
}

#[test]
fn without_random_bytes_the_clock_serves() {
    assert_eq!(hex_text(&[0, 15, 255]), "000fff");
    assert_eq!(bytes_of(0x0102)[..3], [2, 1, 0]);
    assert_eq!(
        token_from(None, 255),
        "ff000000000000000000000000000000"
    );
    assert_eq!(
        token_from(Some(vec![1; 16]), 0),
        "01010101010101010101010101010101"
    );
    assert_eq!(endpoint_url(8080), "http://127.0.0.1:8080/mcp");
}
