use log_scouter::ai::config::{config_path, mask, AiConfig, Provider};
use log_scouter::ai::message::{ChatMsg, ToolCall, ToolResult, ToolSpec};
use log_scouter::ai::provider::{
    anthropic_body, arguments_from, complete, key_headers, listed_model, openai_body,
    parse_anthropic, parse_openai, provider_error, read_completion, request,
};
use log_scouter::ai::skills::{list, list_in, load, parse_skill, skills_dir, SkillFile};
use log_scouter::ai::tools::specs;
use log_scouter::json::{read_json, read_json_bytes, write_json, Json};

fn json(text: &str) -> Json {
    read_json(text).unwrap()
}

/// The value under a path of keys; a number is an index.
fn at<'a>(value: &'a Json, path: &[&str]) -> &'a Json {
    let mut here = value;
    for key in path {
        here = match key.parse::<usize>() {
            Ok(index) => &here.as_list().unwrap()[index],
            Err(_) => here.get(key).unwrap(),
        };
    }
    here
}

fn says(value: &Json, path: &[&str]) -> String {
    at(value, path).as_str().unwrap().to_string()
}

fn tool() -> ToolSpec {
    ToolSpec {
        name: "count_matches".into(),
        description: "count".into(),
        parameters: json("{\"type\":\"object\",\"properties\":{\"query\":{\"type\":\"string\"}}}"),
    }
}

/// A short conversation: system, user, an assistant tool call, and the tool result.
fn conversation() -> Vec<ChatMsg> {
    vec![
        ChatMsg::system("you are helpful"),
        ChatMsg::user("how many errors?"),
        ChatMsg::assistant(
            "let me check",
            vec![ToolCall {
                id: "call_1".into(),
                name: "count_matches".into(),
                arguments: json("{\"query\":\"error\"}"),
            }],
        ),
        ChatMsg::tool_results(vec![ToolResult {
            id: "call_1".into(),
            name: "count_matches".into(),
            content: "12 of 40 match".into(),
        }]),
    ]
}

// ---- OpenAI / DeepSeek wire format --------------------------------------------------

#[test]
fn openai_body_maps_every_turn_and_tools() {
    let body = openai_body("gpt-4o", &conversation(), &[tool()]);
    assert_eq!(says(&body, &["model"]), "gpt-4o");

    let messages = body.get("messages").unwrap();
    assert_eq!(says(messages, &["0", "role"]), "system");
    assert_eq!(says(messages, &["1", "role"]), "user");

    // The assistant turn keeps its text and carries the call with stringified arguments.
    let assistant = at(messages, &["2"]);
    assert_eq!(says(assistant, &["role"]), "assistant");
    let call = at(assistant, &["tool_calls", "0"]);
    assert_eq!(says(call, &["id"]), "call_1");
    assert_eq!(says(call, &["function", "name"]), "count_matches");
    assert_eq!(
        says(call, &["function", "arguments"]),
        "{\"query\":\"error\"}"
    );

    // The result is its own `tool` message, paired by id.
    let result = at(messages, &["3"]);
    assert_eq!(says(result, &["role"]), "tool");
    assert_eq!(says(result, &["tool_call_id"]), "call_1");
    assert_eq!(says(result, &["content"]), "12 of 40 match");

    // Tools are function specs, with auto tool_choice.
    assert_eq!(says(&body, &["tools", "0", "type"]), "function");
    assert_eq!(
        says(&body, &["tools", "0", "function", "name"]),
        "count_matches"
    );
    assert_eq!(says(&body, &["tool_choice"]), "auto");
}

#[test]
fn parse_openai_reads_text_and_tool_calls() {
    let value = json(
        "{\"choices\":[{\"message\":{\"content\":\"Let me check.\",\"tool_calls\":[{\
         \"id\":\"call_9\",\"type\":\"function\",\"function\":{\"name\":\"count_matches\",\
         \"arguments\":\"{\\\"query\\\":\\\"timeout\\\"}\"}}]}}]}",
    );
    let assistant = parse_openai(&value).unwrap();
    assert_eq!(assistant.text, "Let me check.");
    assert_eq!(assistant.tool_calls.len(), 1);
    assert_eq!(assistant.tool_calls[0].id, "call_9");
    assert_eq!(assistant.tool_calls[0].name, "count_matches");
    assert_eq!(
        assistant.tool_calls[0].arguments.get_str("query"),
        Some("timeout")
    );

    // A plain reply with no tools.
    let plain = json("{\"choices\":[{\"message\":{\"content\":\"All clear.\"}}]}");
    let assistant = parse_openai(&plain).unwrap();
    assert_eq!(assistant.text, "All clear.");
    assert!(!assistant.wants_tools());
}

// ---- Anthropic Messages API ---------------------------------------------------------

#[test]
fn anthropic_body_lifts_system_and_uses_content_blocks() {
    let body = anthropic_body("opus-4-8", &conversation(), &[tool()]);
    assert_eq!(says(&body, &["model"]), "opus-4-8");
    match body.get("max_tokens").unwrap() {
        Json::Number(n) => assert!(n.as_u64().unwrap() > 0),
        other => panic!("not a number: {other:?}"),
    }
    // The system prompt is a top-level field, not a message.
    assert_eq!(says(&body, &["system"]), "you are helpful");

    let messages = body.get("messages").unwrap();
    // System is lifted out, so the first message is the user turn.
    assert_eq!(says(messages, &["0", "role"]), "user");

    // The assistant turn is text + tool_use content blocks.
    let assistant = at(messages, &["1"]);
    assert_eq!(says(assistant, &["role"]), "assistant");
    assert_eq!(says(assistant, &["content", "0", "type"]), "text");
    let use_block = at(assistant, &["content", "1"]);
    assert_eq!(says(use_block, &["type"]), "tool_use");
    assert_eq!(says(use_block, &["id"]), "call_1");
    assert_eq!(says(use_block, &["input", "query"]), "error");

    // The result rides back inside a user turn as a tool_result block.
    let result = at(messages, &["2"]);
    assert_eq!(says(result, &["role"]), "user");
    assert_eq!(says(result, &["content", "0", "type"]), "tool_result");
    assert_eq!(says(result, &["content", "0", "tool_use_id"]), "call_1");

    // Tools use `input_schema`, not `parameters`.
    assert_eq!(says(&body, &["tools", "0", "name"]), "count_matches");
    assert!(matches!(
        at(&body, &["tools", "0", "input_schema"]),
        Json::Object(_)
    ));
}

#[test]
fn parse_anthropic_gathers_text_and_tool_use_blocks() {
    let value = json(
        "{\"content\":[{\"type\":\"text\",\"text\":\"Checking.\"},{\"type\":\"tool_use\",\
         \"id\":\"tu_1\",\"name\":\"add_filter\",\"input\":{\"field\":\"level\",\
         \"op\":\"equals\",\"value\":\"Trace\",\"action\":\"exclude\"}}],\
         \"stop_reason\":\"tool_use\"}",
    );
    let assistant = parse_anthropic(&value).unwrap();
    assert_eq!(assistant.text, "Checking.");
    assert_eq!(assistant.tool_calls.len(), 1);
    assert_eq!(assistant.tool_calls[0].name, "add_filter");
    assert_eq!(
        assistant.tool_calls[0].arguments.get_str("value"),
        Some("Trace")
    );
}

// ---- config -------------------------------------------------------------------------

#[test]
fn provider_labels_env_vars_and_wire_family() {
    assert_eq!(Provider::from_label("anthropic"), Some(Provider::Anthropic));
    assert_eq!(Provider::from_label("DeepSeek"), Some(Provider::Deepseek));
    assert_eq!(Provider::from_label("bogus"), None);

    assert_eq!(Provider::OpenAi.key_var(), "OPENAI_API_KEY");
    assert_eq!(Provider::Anthropic.key_var(), "ANTHROPIC_API_KEY");
    // DeepSeek shares the OpenAI-compatible wire format; only Anthropic differs.
    assert!(Provider::Anthropic.is_anthropic());
    assert!(!Provider::Deepseek.is_anthropic());
}

#[test]
fn config_model_defaults_and_key_from_env() {
    let mut config = AiConfig {
        provider: Provider::Anthropic,
        model: String::new(),
        api_key: String::new(),
    };
    // Empty model falls back to the provider default.
    let usual = config.provider.default_model("opus-4-8");
    assert_eq!(config.model(usual), "opus-4-8");
    config.model = "haiku-4-5".into();
    assert_eq!(config.model(usual), "haiku-4-5");

    // The key is read from the environment; a blank one is treated as unset.
    assert_eq!(config.api_key(Some("  ")), None);
    assert_eq!(config.api_key(Some("sk-test")).as_deref(), Some("sk-test"));

    // With no env var, the key stored in ai.json is the fallback.
    config.api_key = "sk-from-file".into();
    assert_eq!(config.api_key(None).as_deref(), Some("sk-from-file"));
    // The environment still wins over the stored key when both are present.
    assert_eq!(
        config.api_key(Some("sk-from-env")).as_deref(),
        Some("sk-from-env")
    );
}

fn skill_file(name: &str, body: &str) -> SkillFile {
    SkillFile {
        name: name.to_string(),
        body: Some(body.to_string()),
    }
}

#[test]
fn skill_parse_uses_first_heading_as_description() {
    let skill = parse_skill("triage", "# OOM triage\n\nLook at memory first.\n");
    assert_eq!(skill.name, "triage");
    assert_eq!(skill.description, "OOM triage");
    assert!(skill.body.contains("Look at memory first."));

    // A body with no heading falls back to the first non-empty line.
    let plain = parse_skill("notes", "\n\ncheck the disk\nthen the network\n");
    assert_eq!(plain.description, "check the disk");

    // list_in takes the *.md files of a directory, sorted, and ignores everything else.
    let files = vec![
        skill_file("b.md", "# Beta\nbody b"),
        skill_file("a.md", "# Alpha\nbody a"),
        skill_file("ignore.txt", "not a skill"),
    ];
    let found = list_in(&files);
    assert_eq!(
        found.iter().map(|s| s.name.as_str()).collect::<Vec<_>>(),
        vec!["a", "b"]
    );
    assert_eq!(found[0].description, "Alpha");
}

// ---- requests, answers and settings -----------------------------------------------

#[test]
fn skills_are_loaded_by_name() {
    let mut files = vec![skill_file("a.md", "# Alpha\nbody a")];
    files.push(SkillFile {
        name: "unreadable.md".to_string(),
        body: None,
    });
    assert_eq!(list(Some(&files)).len(), 1);
    assert!(list(None).is_empty());
    assert_eq!(load("a", Some(&files)).unwrap().description, "Alpha");
    assert!(load("b", Some(&files)).is_none());
    assert_eq!(
        skills_dir(Some("/home/u")).as_deref(),
        Some("/home/u/.log-scouter/skills")
    );
}

#[test]
fn a_request_goes_to_its_providers_endpoint() {
    let mut config = AiConfig {
        provider: Provider::Anthropic,
        model: String::new(),
        api_key: String::new(),
    };
    let base = config.base_url(None);
    let sent = request(&config, "opus-4-8", &base, "k", &conversation(), &[]);
    assert_eq!(sent.url, "https://api.anthropic.com/v1/messages");
    assert_eq!(says(&sent.body, &["model"]), "opus-4-8");
    assert_eq!(sent.headers[0], ("x-api-key", "k".to_string()));
    assert_eq!(
        sent.headers[1],
        ("anthropic-version", "2023-06-01".to_string())
    );
    assert!(sent.body.get("tools").is_none());

    config.provider = Provider::OpenAi;
    let base = config.base_url(Some("http://localhost:1/v1/"));
    config.model = "mine".to_string();
    let sent = request(&config, "gpt-4o", &base, "k", &conversation(), &[]);
    assert_eq!(says(&sent.body, &["model"]), "mine");
    assert_eq!(sent.url, "http://localhost:1/v1/chat/completions");
    assert_eq!(sent.headers, vec![("authorization", "Bearer k".to_string())]);
}

#[test]
fn refusals_and_unreadable_answers_are_told() {
    assert_eq!(
        provider_error(401, "{\"error\":{\"message\":\"bad key\"}}"),
        "provider error 401: bad key"
    );
    assert_eq!(
        provider_error(500, "plain words"),
        "provider error 500: plain words"
    );
    let long = "x".repeat(300);
    assert_eq!(
        complete(Provider::OpenAi, 503, &long).unwrap_err(),
        format!("provider error 503: {}", "x".repeat(200))
    );
    assert!(complete(Provider::OpenAi, 200, "junk")
        .unwrap_err()
        .starts_with("bad response JSON: "));
    assert_eq!(
        read_completion(Provider::OpenAi, Ok(json("{}"))).unwrap_err(),
        "no choices in response"
    );
    let reply = "{\"content\":[{\"type\":\"text\",\"text\":\"hi\"}]}";
    assert_eq!(
        complete(Provider::Anthropic, 200, reply).unwrap().text,
        "hi"
    );
    assert!(complete(Provider::Anthropic, 200, "{}").is_err());
}

#[test]
fn arguments_that_cannot_be_read_are_empty() {
    assert_eq!(arguments_from(Err("bad".to_string())), Json::Object(vec![]));
    assert_eq!(
        arguments_from(Ok(json("{\"a\":1}"))),
        json("{\"a\":1}")
    );
}

#[test]
fn a_key_is_shown_masked() {
    assert_eq!(mask("sk-1234567890abcd"), "sk-1…abcd");
    assert_eq!(mask("short"), "*****");
    assert_eq!(mask("k"), "***");
    let config = AiConfig {
        provider: Provider::OpenAi,
        model: String::new(),
        api_key: " sk-1234567890abcd ".to_string(),
    };
    let (source, shown) = config.key_status(None).unwrap();
    assert_eq!(source, "~/.log-scouter/ai.json");
    assert_eq!(shown, "sk-1…abcd");
    let (source, _) = config.key_status(Some("env")).unwrap();
    assert_eq!(source, "$OPENAI_API_KEY");
    assert!(!config.describe("gpt-4o", None).contains("567890"));
}

#[test]
fn settings_change_what_is_given() {
    let mut config = AiConfig::default();
    assert_eq!(
        config
            .set(Some("bogus"), Some("k"), Some("m"))
            .unwrap_err(),
        "unknown provider \"bogus\"; use openai, anthropic, or deepseek"
    );
    assert_eq!(config.api_key, "");
    config
        .set(Some(" DeepSeek "), Some(" k "), None)
        .unwrap();
    assert_eq!(config.provider, Provider::Deepseek);
    assert_eq!(config.api_key, "k");
    assert_eq!(config.model(config.provider.default_model("opus-4-8")), "deepseek-chat");
    assert_eq!(
        config_path(Some("/home/u")).as_deref(),
        Some("/home/u/.log-scouter/ai.json")
    );
}

#[test]
fn the_offered_tools_have_their_own_names() {
    let offered = specs();
    assert_eq!(offered.len(), 9);
    for (i, a) in offered.iter().enumerate() {
        assert_eq!(a.parameters.get_str("type"), Some("object"));
        for b in &offered[i + 1..] {
            assert_ne!(a.name, b.name);
        }
    }
}

#[test]
fn json_is_read_and_written() {
    let value = json(" {\"b\": [1, null, true], \"a\": \"x\\n\"} ");
    assert_eq!(write_json(&value), "{\"a\":\"x\\n\",\"b\":[1,null,true]}");
    assert!(read_json("{").is_err());
    assert_eq!(read_json_bytes(b"[2]").unwrap(), json("[2]"));
    assert!(read_json_bytes(b"\xff").is_err());
    let built = Json::empty()
        .with("n", Json::whole(-3))
        .with("t", Json::texts(&["p", "q"]))
        .with("n", Json::whole(4));
    assert_eq!(write_json(&built), "{\"n\":4,\"t\":[\"p\",\"q\"]}");
    assert_eq!(
        json("{\"k\":1,\"k\":2}").get("k"),
        Some(&Json::whole(2)),
        "the later of two equal keys counts"
    );
}

#[test]
fn an_assistant_turn_reads_back() {
    let turn = ChatMsg::assistant(
        "text",
        vec![ToolCall {
            id: "i".into(),
            name: "n".into(),
            arguments: json("{\"q\":\"v\"}"),
        }],
    );
    let body = anthropic_body("m", &[turn], &[]);
    let message = at(&body, &["messages", "0"]).clone();
    let reply = parse_anthropic(&message).unwrap();
    assert_eq!(reply.text, "text");
    assert_eq!(reply.tool_calls[0].id, "i");
    assert_eq!(reply.tool_calls[0].arguments, json("{\"q\":\"v\"}"));

    let turn = ChatMsg::assistant(
        "text",
        vec![ToolCall {
            id: "i".into(),
            name: "n".into(),
            arguments: json("{\"q\":\"v\"}"),
        }],
    );
    let body = openai_body("m", &[turn], &[]);
    let message = at(&body, &["messages", "0"]).clone();
    let answer = Json::empty().with(
        "choices",
        Json::list(vec![Json::empty().with("message", message)]),
    );
    let reply = parse_openai(&answer).unwrap();
    assert_eq!(reply.text, "text");
    assert_eq!(reply.tool_calls[0].arguments, json("{\"q\":\"v\"}"));
}

#[test]
fn a_heading_further_down_still_describes_a_skill() {
    let skill = parse_skill("oom", "Intro text\n# OOM triage\n");
    assert_eq!(skill.name, "oom");
    assert_eq!(skill.description, "OOM triage");
    assert_eq!(skill.body, "Intro text\n# OOM triage\n");
    assert_eq!(parse_skill("deep", "x\n\n  ## Steps \n# Later").description, "Steps");
    assert_eq!(parse_skill("blank", " \n\n").description, "");
}

#[test]
fn skills_come_in_the_order_of_their_names() {
    let files = vec![
        skill_file("a-b.md", "two"),
        skill_file("a.md", "one"),
        skill_file("A.md", "zero"),
    ];
    let names: Vec<String> = list_in(&files).into_iter().map(|s| s.name).collect();
    assert_eq!(names, ["A", "a", "a-b"]);
}

#[test]
fn a_blank_model_is_the_providers_default() {
    let mut config = AiConfig::default();
    let usual = config.provider.default_model("opus-4-8");
    assert_eq!(usual, "gpt-4o");
    assert_eq!(Provider::Deepseek.default_model("opus-4-8"), "deepseek-chat");
    assert_eq!(config.model(usual), "gpt-4o");
    config.model = "  ".to_string();
    assert_eq!(config.model(usual), "gpt-4o");
    assert_eq!(
        config.describe(usual, None).lines().nth(1).unwrap(),
        "Model:    gpt-4o"
    );
    config.model = "gpt-4o-mini".to_string();
    assert_eq!(
        config.describe(usual, None).lines().nth(1).unwrap(),
        "Model:    gpt-4o-mini"
    );
}

#[test]
fn the_first_model_of_a_list_is_taken() {
    let body = r#"{"data": [{"id": "opus-4-8"}, {"id": "haiku-4-5"}], "has_more": false}"#;
    assert_eq!(listed_model(200, body).as_deref(), Ok("opus-4-8"));
    for body in [r#"{"data": []}"#, r#"{"data": [{}]}"#, "{}"] {
        assert_eq!(listed_model(200, body).unwrap_err(), "no model is listed");
    }
    assert!(listed_model(200, "<html>")
        .unwrap_err()
        .starts_with("bad response JSON: "));
    assert_eq!(
        listed_model(401, r#"{"error": {"message": "bad key"}}"#).unwrap_err(),
        "provider error 401: bad key"
    );
    assert_eq!(
        key_headers(Provider::Deepseek, "k"),
        [("authorization", "Bearer k".to_string())]
    );
}
