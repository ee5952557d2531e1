use log_scouter::detect::{default_extractor, detect, generic_extractor};
use log_scouter::extractor::{
    extractor_from_project, placeholders, preview_extraction, truncate, Extractor, SampleLine,
    Verdicts, BRACKETED_LEGACY_FORMAT,
};
use log_scouter::filters::{FilterRule, FilterSet};
use log_scouter::models::{field_from, LogFileModel};
use log_scouter::pattern::{Captures, Group};
use log_scouter::timestamp::Timestamp;

const FIRST: &str = "2026-06-16 10:09:43.288 [HOST:log-host-1][SERVER:AppServer][PID:54][THR:136612056716864][Kernel][Trace][UID:0][SID:0][OID:0][ServerDispatcher.cpp:394] NetChannel : Channel is closed. remote 'ip-1'";

const ERROR_LINE: &str = "2026-06-16 10:12:08.631 [HOST:h1][SERVER:AppServer][PID:53][THR:135332369409600][Query Engine][Error][0x800424FB][UID:5CCC][SID:B830][OID:72EF][QueryEngine.cpp:6580] We could not obtain the data.";
const PLAIN_LINE: &str = "2026-06-16 10:12:09.000 [HOST:h1][SERVER:AppServer][PID:53][THR:135332369409600][Query Engine][Error][UID:5CCC][SID:B830][OID:72EF][QueryEngine.cpp:6581] Plain error, no code.";
const TRACE_LINE: &str = "2026-06-16 10:09:43.288 [HOST:h1][SERVER:AppServer][PID:54][THR:1366][Kernel][Trace][UID:0][SID:0][OID:0][D.cpp:394] NetChannel closed";
const OTHER_HOST: &str = "2026-06-16 10:09:44.000 [HOST:h2][SERVER:AppServer][PID:54][THR:1366][Kernel][Trace][UID:0][SID:0][OID:0][D.cpp:395] other host";

fn lines(text: &str) -> Vec<String> {
    text.lines().map(str::to_string).collect()
}

fn owned(list: &[&str]) -> Vec<String> {
    list.iter().map(|s| s.to_string()).collect()
}

fn value<'a>(fields: &'a [(String, String)], name: &str) -> &'a str {
    match fields.iter().find(|pair| pair.0 == name) {
        Some(pair) => pair.1.as_str(),
        None => panic!("no field {name} among {fields:?}"),
    }
}

fn stamp(year: i32, month: u32, day: u32, time: (u32, u32, u32), millis: u32) -> Timestamp {
    Timestamp {
        year,
        month,
        day,
        hour: time.0,
        minute: time.1,
        second: time.2,
        nanos: millis * 1_000_000,
    }
}

fn model(extractor: &Extractor, path: &str, body: &[String]) -> LogFileModel {
    let mut model = LogFileModel::new(
        "f1",
        path,
        extractor.name.as_str(),
        "",
        Some(extractor.clone()),
    );
    model.load_from_lines(body);
    model
}

#[test]
fn default_extractor_parses_all_fields() {
    let extractor = default_extractor().unwrap();
    let fields = preview_extraction(&extractor, FIRST);

    assert_eq!(value(&fields, "timestamp"), "2026-06-16 10:09:43.288");
    assert_eq!(value(&fields, "host"), "log-host-1");
    assert_eq!(value(&fields, "server"), "AppServer");
    assert_eq!(value(&fields, "process_id"), "54");
    assert_eq!(value(&fields, "thread_id"), "136612056716864");
    assert_eq!(value(&fields, "log_module"), "Kernel");
    assert_eq!(value(&fields, "log_level"), "Trace");
    assert_eq!(value(&fields, "file_name"), "ServerDispatcher.cpp");
    assert_eq!(value(&fields, "line_number"), "394");
    assert!(value(&fields, "message").starts_with("NetChannel : Channel is closed."));
}

#[test]
fn timestamp_is_parsed() {
    let extractor = default_extractor().unwrap();
    let fields = extractor.extract(FIRST).unwrap();
    assert_eq!(
        extractor.parse_timestamp(&fields),
        Some(stamp(2026, 6, 16, (10, 9, 43), 288))
    );
}

#[test]
fn multiline_continuation_is_appended() {
    let extractor = default_extractor().unwrap();
    let body = vec![
        FIRST.to_string(),
        "    at frame_one() (a.cpp:1)".to_string(),
        "    at frame_two() (b.cpp:2)".to_string(),
        FIRST.replace("Trace", "Error"),
    ];
    let model = model(&extractor, "test.log", &body);

    assert_eq!(model.entries.len(), 2);
    assert!(model.message(&model.entries[0]).contains("frame_one"));
    assert!(model.message(&model.entries[0]).contains("frame_two"));
    assert_eq!(model.entries[0].raw.matches('\n').count(), 2);
    assert_eq!(model.level(&model.entries[1]), "Error");
}

fn block_schema() -> Extractor {
    let format = "{\n                'timestamp':'<timestamp>',\n                'level': '<level>',\n                'serviceName': '<service>',\n                'className': '<class>',\n                'methodName': '<method>',\n                'message': '<message>',\n                'host': '<host>'\n            }";
    let mut extractor =
        Extractor::with_timestamp_format("python-block", format, "%Y-%m-%d %H:%M:%S,%f").unwrap();
    extractor.entry_start = r"^\s*\{\s*$".to_string();
    extractor.entry_end = r"^\s*\}\s*$".to_string();
    extractor.compile().unwrap();
    extractor
}

#[test]
fn multiline_block_schema_groups_and_extracts_entries() {
    let extractor = block_schema();
    let body = "{\n                'timestamp':'2026-07-14 07:14:40,530',\n                'level': 'INFO',\n                'serviceName': 'MSTRBAK-RESTORE',\n                'className': 'mstrbak-main',\n                'methodName': 'main',\n                'message': 'Starting mstrbak restore container...',\n                'host': 'tec-l-1225084-iserver-0'\n            }\n{\n                'timestamp':'2026-07-14 07:14:40,531',\n                'level': 'INFO',\n                'serviceName': 'MSTRBAK-RESTORE',\n                'className': 'mstrbak-main',\n                'methodName': 'main',\n                'message': 'env info: {'python_version': '3.13.11', 'feature_flag': {'collaboration_service': True}}',\n                'host': 'tec-l-1225084-iserver-0'\n            }";
    let model = model(&extractor, "restore.log", &lines(body));

    assert_eq!(model.entries.len(), 2);
    assert_eq!(model.entries[0].line_no, 1);
    assert_eq!(model.entries[1].line_no, 10);
    assert_eq!(
        model.get_field(&model.entries[0], "timestamp"),
        "2026-07-14 07:14:40,530"
    );
    assert_eq!(model.get_field(&model.entries[0], "level"), "INFO");
    assert_eq!(
        model.get_field(&model.entries[0], "service"),
        "MSTRBAK-RESTORE"
    );
    assert_eq!(
        model.get_field(&model.entries[1], "message"),
        "env info: {'python_version': '3.13.11', 'feature_flag': {'collaboration_service': True}}"
    );
    assert_eq!(
        model.timestamp(&model.entries[1]),
        Some(stamp(2026, 7, 14, (7, 14, 40), 531))
    );
    assert_eq!(extractor.match_score(&lines(body)), 2);
    assert_eq!(
        detect(&[&extractor], &lines(body)).unwrap().name,
        "python-block"
    );
}

#[test]
fn an_entry_is_timed_by_the_field_its_schema_names() {
    let mut extractor = Extractor::with_timestamp_format(
        "two times",
        "<time> done=<finished> <message>",
        "%Y-%m-%dT%H:%M:%S",
    )
    .unwrap();
    let body = lines("2026-07-14T07:14:40 done=2026-07-14T09:00:01 job closed");
    extractor.timestamp_field = "finished".to_string();
    let ended = model(&extractor, "jobs.log", &body);
    assert_eq!(
        ended.timestamp(&ended.entries[0]),
        Some(stamp(2026, 7, 14, (9, 0, 1), 0))
    );

    // A field that the format does not have leaves the time at the head of the line.
    extractor.timestamp_field = "closed".to_string();
    let headed = model(&extractor, "jobs.log", &body);
    assert_eq!(
        headed.timestamp(&headed.entries[0]),
        Some(stamp(2026, 7, 14, (7, 14, 40), 0))
    );
}

#[test]
fn multiline_block_schema_extracts_a_message_value_that_spans_lines() {
    let extractor = block_schema();
    let body = "{\n                'timestamp':'2026-07-14 10:01:36,088',\n                'level': 'INFO',\n                'serviceName': 'MSTRBAK-REFRESH',\n                'className': 'IServerV2',\n                'methodName': 'get_iserver_state',\n                'message': 'current iserver state: <state>starting</state>\n<memory_state>normal</memory_state>\n',\n                'host': 'env-oplssbz618oe2fkp-iserver-0'\n            }";
    let model = model(&extractor, "r.log", &lines(body));

    assert_eq!(model.entries.len(), 1);
    assert_eq!(model.get_field(&model.entries[0], "level"), "INFO");
    assert_eq!(
        model.get_field(&model.entries[0], "service"),
        "MSTRBAK-REFRESH"
    );
    assert_eq!(
        model.get_field(&model.entries[0], "host"),
        "env-oplssbz618oe2fkp-iserver-0"
    );
    assert_eq!(
        model.get_field(&model.entries[0], "message"),
        "current iserver state: <state>starting</state>\n<memory_state>normal</memory_state>\n"
    );
    assert_eq!(
        model.timestamp(&model.entries[0]),
        Some(stamp(2026, 7, 14, (10, 1, 36), 88))
    );
}

#[test]
fn explicit_entry_start_merges_exception_continuations() {
    let mut extractor = Extractor::with_timestamp_format(
        "mixed",
        "[<level>] <timestamp> - <message>",
        "%Y-%m-%d %H:%M:%S,%f",
    )
    .unwrap();
    extractor.entry_start = r"^\[[A-Za-z]+\]\s+\d{4}-\d{2}-\d{2}\s+".to_string();
    extractor.compile().unwrap();

    let body = owned(&[
        "[Info] 2026-07-14 07:14:40,530 - Starting mstrbak restore container...",
        "[Error] 2026-07-14 07:14:40,531 - Failed to start mstrbak restore container due to the following error:",
        "Traceback (most recent call last):",
        "  File \"/usr/local/lib/python3.13/site-packages/mstrbak/main.py\",",
        "    main()",
        "  File \"/usr/local/lib/python3.13/site-packages/mstrbak/restore.py\",",
        "    perform_restore()",
        "[Warn] 2026-07-14 07:14:40,532 - The restore process encountered a warning.",
    ]);
    let model = model(&extractor, "mixed.log", &body);

    assert_eq!(model.entries.len(), 3);
    assert_eq!(model.level(&model.entries[1]), "Error");
    let message = model.message(&model.entries[1]);
    assert!(
        message.contains("Traceback (most recent call last):"),
        "{message}"
    );
    assert!(message.contains("perform_restore()"), "{message}");
    assert_eq!(model.level(&model.entries[2]), "Warn");
}

#[test]
fn logical_field_aliases_work() {
    let extractor = default_extractor().unwrap();
    let model = model(&extractor, "sample.log", &owned(&[FIRST]));
    let entry = &model.entries[0];
    assert_eq!(model.get_field(entry, "level"), "Trace");
    assert_eq!(model.get_field(entry, "module"), "Kernel");
    assert_eq!(model.get_field(entry, "file"), "ServerDispatcher.cpp");
}

#[test]
fn custom_format_parses() {
    let extractor = Extractor::new("simple", "<level>: <message>").unwrap();
    let fields = extractor.extract("ERROR: disk full").unwrap();
    assert_eq!(value(&fields, "level"), "ERROR");
    assert_eq!(value(&fields, "message"), "disk full");
}

#[test]
fn optional_field_is_captured_when_present() {
    let fields = default_extractor().unwrap().extract(ERROR_LINE).unwrap();
    assert_eq!(value(&fields, "log_level"), "Error");
    assert_eq!(value(&fields, "error_code"), "0x800424FB");
    assert_eq!(value(&fields, "user_id"), "5CCC");
    assert_eq!(value(&fields, "file_name"), "QueryEngine.cpp");
    assert_eq!(value(&fields, "message"), "We could not obtain the data.");
}

#[test]
fn optional_field_is_empty_when_absent() {
    let fields = default_extractor().unwrap().extract(PLAIN_LINE).unwrap();
    assert_eq!(value(&fields, "log_level"), "Error");
    assert_eq!(value(&fields, "error_code"), "");
    assert_eq!(value(&fields, "user_id"), "5CCC");
    assert_eq!(value(&fields, "message"), "Plain error, no code.");
}

#[test]
fn level_filter_matches_lines_with_and_without_the_optional_code() {
    let extractor = default_extractor().unwrap();
    let model = model(&extractor, "e.log", &owned(&[ERROR_LINE, PLAIN_LINE]));
    assert_eq!(model.entries.len(), 2);

    let mut filters = FilterSet::default();
    filters.add(FilterRule::new("level", "equals", "Error", "include"));
    let kept = model
        .entries
        .iter()
        .filter(|entry| filters.visible(&model, entry))
        .count();
    assert_eq!(
        kept, 2,
        "both error lines must survive a level=Error filter"
    );
}

#[test]
fn optional_field_absorbs_the_separator_in_front_of_it() {
    let extractor = Extractor::new("opt", "[<a>][<b?>][C:<c>]").unwrap();

    let both = extractor.extract("[1][2][C:3]").unwrap();
    assert_eq!(
        (value(&both, "a"), value(&both, "b"), value(&both, "c")),
        ("1", "2", "3")
    );

    let without = extractor.extract("[1][C:3]").unwrap();
    assert_eq!(value(&without, "a"), "1");
    assert_eq!(value(&without, "b"), "");
    assert_eq!(value(&without, "c"), "3");
}

#[test]
fn optional_field_does_not_break_multiline_grouping() {
    let extractor = default_extractor().unwrap();
    let body = owned(&[
        ERROR_LINE,
        "Error type: Odbc error. Connection refused.",
        PLAIN_LINE,
    ]);
    let model = model(&extractor, "e.log", &body);

    assert_eq!(
        model.entries.len(),
        2,
        "continuation must fold into the error line"
    );
    assert!(model.entries[0].raw.contains("Odbc error"));
    assert_eq!(
        model.get_field(&model.entries[0], "error_code"),
        "0x800424FB"
    );
}

#[test]
fn the_builtin_schema_validates_its_own_samples() {
    let extractor = default_extractor().unwrap();
    assert_eq!(extractor.samples.len(), 3);
    assert_eq!(extractor.level_field(), Some("log_level"));
    for sample in &extractor.samples {
        let fields = extractor.extract(&sample.line).expect("sample parses");
        assert_eq!(
            value(&fields, "log_level"),
            sample.level.as_ref().unwrap().as_str()
        );
    }
}

#[test]
fn a_sample_catches_a_format_that_matches_but_mis_parses() {
    let error_line = "2026-06-16 10:12:08.631 [HOST:h1][SERVER:S][PID:53][THR:135][Query Engine][Error][0x800424FB][UID:5CCC][SID:B830][OID:72EF][Q.cpp:6580] boom";

    let legacy = Extractor::new("legacy", BRACKETED_LEGACY_FORMAT).unwrap();
    let fields = legacy.extract(error_line).unwrap();
    assert_eq!(
        value(&fields, "log_level"),
        "Error][0x800424FB",
        "matches, but wrongly"
    );

    let error = Extractor::new("legacy", BRACKETED_LEGACY_FORMAT)
        .unwrap()
        .with_samples(vec![SampleLine::with_level(error_line, "Error")])
        .unwrap_err();
    assert_eq!(
        error,
        r#"sample 1 parsed level "Error][0x800424FB", expected "Error""#
    );

    assert!(default_extractor()
        .unwrap()
        .with_samples(vec![SampleLine::with_level(error_line, "Error")])
        .is_ok());
}

fn compact_schema() -> Extractor {
    Extractor::with_timestamp_format("compact", "<timestamp> <level>: <message>", "%H:%M:%S")
        .unwrap()
}

#[test]
fn a_sample_that_does_not_match_at_all_is_rejected() {
    let error = compact_schema()
        .with_samples(vec![SampleLine::new("this is not a compact log line")])
        .unwrap_err();
    assert!(
        error.starts_with("sample 1 does not match the format:"),
        "{error}"
    );
}

#[test]
fn a_sample_expecting_a_level_needs_a_level_field() {
    let error = Extractor::new("bodyonly", "<timestamp> <message>")
        .unwrap()
        .with_samples(vec![SampleLine::with_level("10:00:01 hello", "INFO")])
        .unwrap_err();
    assert!(error.contains("no level field"), "{error}");
}

#[test]
fn samples_are_optional() {
    assert!(Extractor::new("bare", "<message>").is_ok());
}

#[test]
fn field_pattern_pins_the_chosen_fields_and_frees_the_rest() {
    let extractor = default_extractor().unwrap();
    let chosen = vec![
        ("host".to_string(), "h1".to_string()),
        ("log_level".to_string(), "Trace".to_string()),
    ];
    let pattern = extractor.field_pattern(&chosen).unwrap();
    let regex = regex::Regex::new(&pattern).unwrap();

    assert!(regex.is_match(TRACE_LINE));
    assert!(!regex.is_match(OTHER_HOST), "host was not pinned");
    assert!(!regex.is_match(ERROR_LINE), "level was not pinned");

    let multi = format!("{TRACE_LINE}\n  at Foo.bar(Foo.java:12)");
    assert!(regex.is_match(&multi), "multi-line entry rejected");
}

#[test]
fn field_pattern_pins_an_optional_field_in_both_directions() {
    let extractor = default_extractor().unwrap();

    let present = vec![("error_code".to_string(), "0x800424FB".to_string())];
    let regex = regex::Regex::new(&extractor.field_pattern(&present).unwrap()).unwrap();
    assert!(regex.is_match(ERROR_LINE));
    assert!(!regex.is_match(TRACE_LINE));

    let absent = vec![
        ("log_level".to_string(), "Trace".to_string()),
        ("error_code".to_string(), String::new()),
    ];
    let regex = regex::Regex::new(&extractor.field_pattern(&absent).unwrap()).unwrap();
    assert!(regex.is_match(TRACE_LINE));
    assert!(!regex.is_match(ERROR_LINE), "a coded line slipped through");
}

#[test]
fn field_pattern_of_a_format_with_no_fields_is_none() {
    let bare = Extractor::new("bare", "no placeholders here").unwrap();
    assert_eq!(bare.field_pattern(&Vec::new()), None);

    let generic = generic_extractor().unwrap();
    let chosen = vec![("message".to_string(), "hello".to_string())];
    let pattern = generic.field_pattern(&chosen).unwrap();
    let regex = regex::Regex::new(&pattern).unwrap();
    assert!(regex.is_match("hello"));
    assert!(!regex.is_match("goodbye"));
}

#[test]
fn cached_field_extraction_matches_and_is_stable() {
    let format = "{\"@timestamp\":\"<timestamp>\",\"message\":\"<message>\",\"logger_name\":\"<logger>\",\"level\":\"<level>\"}";
    let mut extractor =
        Extractor::with_timestamp_format("json", format, "%Y-%m-%dT%H:%M:%S%.3fZ").unwrap();
    extractor.entry_start = r"^\{".to_string();
    extractor.compile().unwrap();

    let body = "{\"@timestamp\":\"2026-07-15T08:12:59.414Z\",\"message\":\"boom, with a comma\",\"logger_name\":\"com.mstr.Rest\",\"level\":\"ERROR\"}";
    let model = model(&extractor, "m.log", &lines(body));
    let entry = &model.entries[0];

    assert_eq!(model.get_field(entry, "level"), "ERROR");
    assert_eq!(model.get_field(entry, "logger"), "com.mstr.Rest");
    assert_eq!(model.get_field(entry, "message"), "boom, with a comma");
    assert_eq!(model.get_field(entry, "message"), "boom, with a comma");

    let map = model.fields_for(entry);
    for field in ["timestamp", "message", "logger", "level"] {
        let held = map
            .iter()
            .find(|pair| pair.0 == field)
            .map(|pair| pair.1.as_str())
            .unwrap_or("");
        assert_eq!(held, model.get_field(entry, field));
    }
}

// ---- patterns, fields and samples -------------------------------------------------

#[test]
fn a_pattern_that_is_no_regex_is_refused() {
    let mut bad = Extractor::new("bad", "<a>").unwrap();
    bad.field_patterns
        .push(("a".to_string(), "([unclosed".to_string()));
    assert!(bad.compile().is_err());

    let mut start = Extractor::new("bad", "<a>").unwrap();
    start.entry_start = "(".to_string();
    assert!(start.compile().is_err());
    let mut end = Extractor::new("bad", "<a>").unwrap();
    end.entry_end = "(".to_string();
    assert!(end.compile_relaxed().is_err());
    assert!(extractor_from_project(end).is_none());
}

#[test]
fn placeholders_know_names_and_options() {
    let found = placeholders("[<a>][<b?>] <c>");
    let names: Vec<&str> = found.iter().map(|p| p.name.as_str()).collect();
    assert_eq!(names, ["a", "b", "c"]);
    let optional: Vec<bool> = found.iter().map(|p| p.optional).collect();
    assert_eq!(optional, [false, true, false]);
}

#[test]
fn a_line_outside_the_format_is_all_message() {
    let extractor = compact_schema();
    assert_eq!(extractor.extract("no such line"), None);
    assert_eq!(preview_extraction(&extractor, "no such line"), Vec::new());
    let model = model(&extractor, "x.log", &owned(&["no such line"]));
    assert_eq!(model.message(&model.entries[0]), "no such line");
    assert_eq!(model.level(&model.entries[0]), "");
    assert_eq!(model.get_field(&model.entries[0], "raw"), "no such line");
    assert_eq!(model.timestamp(&model.entries[0]), None);
}

#[test]
fn a_cut_text_shows_that_it_was_cut() {
    assert_eq!(truncate("short", 10), "short");
    assert_eq!(truncate("0123456789", 4), "0123...");
}

#[test]
fn with_field_hands_out_what_get_field_gives() {
    let extractor = compact_schema();
    let model = model(&extractor, "x.log", &owned(&["10:00:01 WARN: disk full"]));
    let entry = &model.entries[0];
    let length = model.with_field(entry, "message", |text: &str| text.len());
    assert_eq!(length, "disk full".len());
    assert_eq!(model.log_schema_name_for(entry), "compact");
    assert_eq!(model.source_name(entry), None);
    assert!(!model.is_merged());
}

fn group(name: &str, value: Option<&str>) -> Group {
    Group {
        name: name.to_string(),
        value: value.map(str::to_string),
    }
}

#[test]
fn patterns_are_taken_over_as_they_are_judged() {
    let fine = Verdicts {
        full: None,
        head: None,
        probe: None,
        entry_start: None,
        entry_end: None,
    };
    let mut schema = Extractor::unbuilt("s", "<a> [<b>] <c>");
    schema.build_by(&fine).unwrap();
    assert_eq!(schema.field_names, ["a", "b", "c"]);
    assert_eq!(
        schema.regex.as_deref(),
        Some("(?s)^(?P<a>.*?) \\[(?P<b>.*?)\\] (?P<c>.*)")
    );
    assert_eq!(
        schema.head_regex.as_deref(),
        Some("(?s)^(?P<a>.*?) \\[(?P<b>.*?)\\] ")
    );
    assert_eq!(schema.start_regex.as_deref(), Some("^(.+?) \\["));
    assert_eq!(schema.tail_field(), Some("c"));

    let mut schema = Extractor::unbuilt("s", "<a> [<b>] <c>");
    let without_aids = Verdicts {
        head: Some("no".to_string()),
        probe: Some("no".to_string()),
        ..fine
    };
    schema.build_by(&without_aids).unwrap();
    assert_eq!(schema.head_regex, None);
    assert_eq!(schema.start_regex, schema.regex);

    let mut schema = Extractor::unbuilt("s", "<a>");
    let refused = Verdicts {
        full: None,
        head: None,
        probe: None,
        entry_start: Some("why".to_string()),
        entry_end: Some("later".to_string()),
    };
    assert_eq!(
        schema.build_by(&refused).unwrap_err(),
        "Invalid entry_start pattern: why"
    );
    assert_eq!(schema.regex, None, "left as it was");
}

#[test]
fn fields_come_from_what_was_captured() {
    let schema = Extractor::new("s", "<level> <code?> <message>").unwrap();
    let found = Captures {
        groups: vec![
            group("level", Some("WARN")),
            group("code", None),
            group("message", Some("disk")),
        ],
        rest: String::new(),
    };
    let fields = schema.fields_from(&found);
    assert_eq!(
        fields,
        [
            ("level".to_string(), "WARN".to_string()),
            ("code".to_string(), String::new()),
            ("message".to_string(), "disk".to_string())
        ]
    );
    let head = Some(Captures {
        groups: vec![group("level", Some("WARN"))],
        rest: "disk".to_string(),
    });
    let raw = "WARN  disk\n  more";
    let field = |name: &str| field_from(&schema, raw, name, &head, &None);
    assert_eq!(field("severity"), "");
    assert_eq!(field("level"), "WARN");
    assert_eq!(field("message"), "disk\n  more");
    let block = Some(found);
    assert_eq!(field_from(&schema, raw, "message", &None, &block), "disk");
    assert_eq!(field_from(&schema, raw, "msg", &None, &None), "");
    assert_eq!(field_from(&schema, raw, "message", &None, &None), raw);
    assert_eq!(field_from(&schema, raw, "level", &None, &None), "");
}

#[test]
fn a_sample_is_judged_by_its_fields() {
    let mut schema = compact_schema();
    schema.samples = vec![SampleLine::with_level("x", "WARN"), SampleLine::new("y")];
    let level = |value: &str| Some(vec![("level".to_string(), value.to_string())]);
    assert_eq!(schema.sample_verdict(0, &level("WARN")), None);
    assert_eq!(
        schema.sample_verdict(0, &level("INFO")).unwrap(),
        "sample 1 parsed level \"INFO\", expected \"WARN\""
    );
    assert_eq!(schema.sample_verdict(1, &level("any")), None);
    assert_eq!(
        schema.sample_verdict(1, &None).unwrap(),
        "sample 2 does not match the format: \"y\""
    );
}

#[test]
fn the_first_sample_that_does_not_hold_is_named() {
    let good = SampleLine::with_level("10:00:01 WARN: disk", "WARN");
    let kept = compact_schema()
        .with_samples(vec![good.clone(), SampleLine::new("10:00:02 INFO: ok")])
        .unwrap();
    assert_eq!(kept.samples.len(), 2);
    let refused = |samples: Vec<SampleLine>| compact_schema().with_samples(samples).unwrap_err();
    let bad_level = SampleLine::with_level("10:00:01 WARN: disk", "ERROR");
    let stray = SampleLine::new("no such line");
    assert!(refused(vec![good.clone(), bad_level.clone(), stray.clone()])
        .starts_with("sample 2 parsed level"));
    assert!(refused(vec![good, stray, bad_level]).starts_with("sample 2 does not match"));
}
