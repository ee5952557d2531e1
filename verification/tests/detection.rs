use log_scouter::detect::{
    builtin_extractors, bundled_schemas, default_extractor, detect, detect_all, fifth_of,
    generic_extractor, is_enough, rank,
};
use log_scouter::extractor::{Extractor, GENERIC_EXTRACTOR_NAME};
use log_scouter::models::LogFileModel;
use log_scouter::pattern::{Captures, Group};
use log_scouter::timestamp::{
    at_midnight, normalize_python_fraction, parse_datetime, parse_timestamp_with_format,
    plain_time_text, sniff_timestamp, time_from_parts, time_in_groups, without_date, Timestamp,
};

const SAMPLE: &str = "2026-06-16 10:09:43.288 [HOST:log-host-1][SERVER:AppServer][PID:54][THR:136612056716864][Kernel][Trace][UID:0][SID:0][OID:0][ServerDispatcher.cpp:394] NetChannel : Channel is closed. remote 'ip-1'
2026-06-16 10:09:44.100 [HOST:log-host-1][SERVER:AppServer][PID:54][THR:136612056716864][SQL][Warn][UID:0][SID:0][OID:0][Sql.cpp:12] slow statement
2026-06-16 10:09:51.000 [HOST:log-host-1][SERVER:AppServer][PID:54][THR:136612056716864][Net][Error][0x800424FB][UID:0][SID:0][OID:0][Net.cpp:7] no route";
const COMPACT_LOG: &str = "10:00:01 WARN: disk almost full\n10:00:02 INFO: recovered\n";

fn lines(text: &str) -> Vec<String> {
    text.lines().map(str::to_string).collect()
}

fn compact_schema() -> Extractor {
    Extractor::with_timestamp_format("compact", "<timestamp> <level>: <message>", "%H:%M:%S")
        .unwrap()
}

fn at(time: (u32, u32, u32), nanos: u32) -> Timestamp {
    Timestamp {
        year: 2026,
        month: 6,
        day: 16,
        hour: time.0,
        minute: time.1,
        second: time.2,
        nanos,
    }
}

#[test]
fn detection_prefers_the_specific_schema_over_a_catch_all() {
    let generic = Extractor::new("aaa-generic", "<message>").unwrap();
    let bracketed = default_extractor().unwrap();

    assert_eq!(generic.match_score(&lines(SAMPLE)), SAMPLE.lines().count());
    assert!(bracketed.specificity() > generic.specificity());

    let chosen = detect(&[&generic, &bracketed], &lines(SAMPLE)).unwrap();
    assert_eq!(chosen.name, "Bracketed default");
}

#[test]
fn detection_picks_the_schema_that_actually_matches() {
    let compact = compact_schema();
    let bracketed = default_extractor().unwrap();

    let chosen = detect(&[&compact, &bracketed], &lines(COMPACT_LOG)).unwrap();
    assert_eq!(chosen.name, "compact");
    assert_eq!(bracketed.match_score(&lines(COMPACT_LOG)), 0);

    let chosen = detect(&[&compact, &bracketed], &lines(SAMPLE)).unwrap();
    assert_eq!(chosen.name, "Bracketed default");
}

#[test]
fn detection_tolerates_multiline_continuations() {
    let body = format!(
        "{}\n    at frame_one() (a.cpp:1)\n    at frame_two() (b.cpp:2)\n{}",
        SAMPLE.lines().next().unwrap(),
        SAMPLE.lines().next().unwrap()
    );
    let bracketed = default_extractor().unwrap();
    assert_eq!(
        bracketed.match_score(&lines(&body)),
        2,
        "only the record starts match"
    );
    assert_eq!(
        detect(&[&bracketed], &lines(&body)).unwrap().name,
        "Bracketed default"
    );
}

#[test]
fn detection_returns_none_when_nothing_explains_the_file() {
    let bracketed = default_extractor().unwrap();
    let compact = compact_schema();
    assert!(detect(
        &[&bracketed, &compact],
        &lines("just prose\nmore prose\n")
    )
    .is_none());
    assert!(detect(&[&bracketed], &[]).is_none());
}

#[test]
fn detection_is_deterministic_across_equally_scoring_schemas() {
    let a = Extractor::new("aaa", "<message>").unwrap();
    let b = Extractor::new("bbb", "<message>").unwrap();
    let c = Extractor::new("ccc", "<message>").unwrap();
    assert_eq!(a.specificity(), b.specificity());

    let text = lines("anything at all\n");
    for order in [vec![&a, &b, &c], vec![&c, &b, &a], vec![&b, &c, &a]] {
        assert_eq!(
            detect(&order, &text).unwrap().name,
            "aaa",
            "ties break by name"
        );
    }
}

fn uvicorn_schema() -> Extractor {
    let mut ex = Extractor::new("Uvicorn", "<level>:<pad><message>").unwrap();
    ex.field_patterns
        .push(("level".to_string(), "INFO|ERROR".to_string()));
    ex.field_patterns
        .push(("pad".to_string(), " +".to_string()));
    ex.entry_start = "^(?:INFO|ERROR):".to_string();
    ex.compile().unwrap();
    ex
}

fn nginx_schema() -> Extractor {
    let mut ex = Extractor::with_timestamp_format(
        "Nginx",
        "<addr> - - [<timestamp>] <message>",
        "%d/%b/%Y:%H:%M:%S %z",
    )
    .unwrap();
    ex.entry_start = r"^\S+ - - \[".to_string();
    ex.compile().unwrap();
    ex
}

const MIXED_LOG: &str = "[boot] starting up\n\
    INFO:     application ready\n\
    1.2.3.4 - - [13/Jul/2026:06:30:11 +0000] GET /api/x\n\
    ERROR:    boom happened\n\
    5.6.7.8 - - [13/Jul/2026:06:30:12 +0000] GET /healthz";

#[test]
fn detect_all_returns_a_schema_per_format() {
    let uvi = uvicorn_schema();
    let nginx = nginx_schema();
    let generic = generic_extractor().unwrap();
    let candidates = [&uvi, &nginx, &generic];

    let set: Vec<&str> = detect_all(&candidates, &lines(MIXED_LOG))
        .into_iter()
        .map(|ex| ex.name.as_str())
        .collect();
    assert!(set.contains(&"Uvicorn") && set.contains(&"Nginx"));
    assert!(!set.contains(&GENERIC_EXTRACTOR_NAME));

    let only_uvi = lines("INFO:     a\nERROR:    b\nINFO:     c");
    let single: Vec<&str> = detect_all(&candidates, &only_uvi)
        .into_iter()
        .map(|ex| ex.name.as_str())
        .collect();
    assert_eq!(single, ["Uvicorn"]);
}

#[test]
fn sniff_reads_the_iso_timestamp_family_off_a_raw_line() {
    let expect = at((10, 9, 43), 288_000_000);

    assert_eq!(
        sniff_timestamp("2026-06-16 10:09:43.288 INFO x"),
        Some(expect)
    );
    assert_eq!(
        sniff_timestamp("2026-06-16T10:09:43,288Z INFO x"),
        Some(expect)
    );
    assert_eq!(
        sniff_timestamp("[2026/06/16 10:09:43.288] INFO x"),
        Some(expect)
    );
    assert_eq!(
        sniff_timestamp("2026-06-16 10:09:43.2880000 x"),
        Some(expect)
    );

    assert_eq!(sniff_timestamp("        at Foo.bar(Foo.java:12)"), None);
    assert_eq!(sniff_timestamp("2026-13-45 10:09:43.288 x"), None);
    assert_eq!(sniff_timestamp("10:09:43 WARN disk full"), None);
}

#[test]
fn a_log_no_schema_explains_falls_back_to_one_entry_per_line() {
    let plain = lines("2026-06-16 10:00:01,000 INFO alpha\n2026-06-16 10:00:02,000 INFO beta");
    let bracketed = default_extractor().unwrap();
    let generic = generic_extractor().unwrap();

    let chosen = detect(&[&bracketed, &generic], &plain).expect("a schema always wins");
    assert_eq!(chosen.name, GENERIC_EXTRACTOR_NAME);
    let bracketed_lines = lines(SAMPLE.lines().next().unwrap());
    let chosen = detect(&[&bracketed, &generic], &bracketed_lines).unwrap();
    assert_eq!(chosen.name, bracketed.name);
}

#[test]
fn the_generic_schema_carries_a_sniffed_timestamp() {
    let extractor = generic_extractor().unwrap();
    let name = extractor.name.clone();
    let mut model = LogFileModel::new("f1", "plain.log", &name, "", Some(extractor));
    model.load_from_lines(&lines("2026-06-16 10:00:02,500 INFO beta one"));

    assert_eq!(model.entries.len(), 1);
    assert_eq!(
        model.message(&model.entries[0]),
        "2026-06-16 10:00:02,500 INFO beta one"
    );
    assert_eq!(
        model.timestamp(&model.entries[0]),
        Some(at((10, 0, 2), 500_000_000))
    );
}

// ---- coverage, ranking and times --------------------------------------------------

#[test]
fn the_builtin_schemas_are_the_fallback_and_the_catch_all() {
    let names: Vec<String> = builtin_extractors()
        .unwrap()
        .into_iter()
        .map(|e| e.name)
        .collect();
    assert_eq!(names, ["Bracketed default", GENERIC_EXTRACTOR_NAME]);
}

#[test]
fn coverage_counts_the_lines_that_parse() {
    let compact = compact_schema();
    let text = lines("10:00:01 WARN: disk almost full\nnoise\n\n10:00:02 INFO: recovered");
    assert_eq!(compact.match_coverage(&text), (2, 2));
    let stray = lines("noise\n10:00:01 WARN: disk almost full");
    assert_eq!(compact.match_coverage(&stray), (1, 2));
}

#[test]
fn a_time_needs_a_calendar_day() {
    assert_eq!(
        time_from_parts("2026", "02", "30", "10", "00", "00", None),
        None
    );
    assert_eq!(
        time_from_parts("2026", "06", "16", "10", "09", "43", Some("5")),
        Some(at((10, 9, 43), 500_000_000))
    );
    assert_eq!(
        time_from_parts("2026", "06", "16", "24", "09", "43", None),
        None
    );
}

#[test]
fn formats_read_fractions_of_any_length() {
    assert_eq!(
        parse_timestamp_with_format("2026-06-16 10:09:43,288", "%Y-%m-%d %H:%M:%S,%f"),
        Some(at((10, 9, 43), 288_000_000))
    );
    assert_eq!(
        parse_timestamp_with_format("2026-06-16 10:09:43.2", "%Y-%m-%d %H:%M:%S.%f"),
        Some(at((10, 9, 43), 200_000_000))
    );
    assert_eq!(
        parse_timestamp_with_format("not a time", "%Y-%m-%d %H:%M:%S"),
        None
    );
}

#[test]
fn typed_times_may_leave_out_the_end() {
    assert_eq!(parse_datetime("2026-06-16"), Some(at((0, 0, 0), 0)));
    assert_eq!(parse_datetime("2026-06-16 10:09"), Some(at((10, 9, 0), 0)));
    assert_eq!(
        parse_datetime(" 2026-06-16T10:09:43.288 "),
        Some(at((10, 9, 43), 288_000_000))
    );
}

#[test]
fn nothing_is_earlier_than_the_earliest_time() {
    let first = Timestamp::earliest();
    let chrono_first = chrono::NaiveDateTime::MIN;
    assert_eq!(first.year, chrono::Datelike::year(&chrono_first));
    assert_eq!(first.month, chrono::Datelike::month(&chrono_first));
    assert_eq!(first.day, chrono::Datelike::day(&chrono_first));
    assert!(first.before(&at((0, 0, 0), 0)));
    assert!(!first.before(&first));
    assert!(!at((10, 0, 0), 0).before(&at((9, 59, 59), 999)));
}

#[test]
fn a_quarter_speaks_for_a_schema_and_a_fifth_keeps_it() {
    assert!(is_enough((1, 4)));
    assert!(!is_enough((1, 5)));
    assert!(is_enough((2, 5)));
    assert!(!is_enough((0, 0)));
    assert_eq!(fifth_of(0), 1);
    assert_eq!(fifth_of(5), 1);
    assert_eq!(fifth_of(6), 2);
}

#[test]
fn candidates_are_ranked_by_what_they_assert() {
    let generic = Extractor::new("aaa", "<message>").unwrap();
    let other = Extractor::new("bbb", "<message>").unwrap();
    let compact = compact_schema();
    let names: Vec<&str> = rank(&[&other, &generic, &compact])
        .into_iter()
        .map(|schema| schema.name.as_str())
        .collect();
    assert_eq!(names, ["compact", "aaa", "bbb"]);
}

#[test]
fn a_bundled_schema_that_does_not_compile_is_dropped() {
    let good = Extractor::unbuilt("good", "<level>: <message>");
    let mut bad = Extractor::unbuilt("bad", "<message>");
    bad.entry_end = "[".to_string();
    let kept = bundled_schemas(vec![bad, good]);
    assert_eq!(kept.len(), 1);
    assert_eq!(kept[0].name, "good");
    assert!(kept[0].regex.is_some());
}

#[test]
fn a_sniffed_head_names_a_time_by_its_groups() {
    let group = |name: &str, value: &str| Group {
        name: name.to_string(),
        value: Some(value.to_string()),
    };
    let mut found = Captures {
        groups: vec![
            group("year", "2026"),
            group("month", "6"),
            group("day", "16"),
            group("hour", "10"),
            group("minute", "00"),
            group("second", "02"),
        ],
        rest: String::new(),
    };
    assert_eq!(time_in_groups(&found), Some(at((10, 0, 2), 0)));
    found.groups.push(group("fraction", "5"));
    assert_eq!(time_in_groups(&found), Some(at((10, 0, 2), 500_000_000)));
    found.groups.remove(0);
    assert_eq!(time_in_groups(&found), None);
}

#[test]
fn typed_times_are_brought_into_one_form() {
    assert_eq!(plain_time_text(" '2026-06-16T10:00_' "), "2026-06-16 10:00 ");
    assert_eq!(
        normalize_python_fraction("10:00:02,5 x").as_deref(),
        Some("10:00:02,500000000 x")
    );
    assert_eq!(normalize_python_fraction("10:00:02"), None);
    assert_eq!(normalize_python_fraction("1.1234567"), None);
    assert_eq!(at_midnight((2026, 6, 16)), at((0, 0, 0), 0));
    assert_eq!(without_date((1, 2, 3, 4)).year, 1900);
}
