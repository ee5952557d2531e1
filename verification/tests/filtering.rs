use log_scouter::detect::default_extractor;
use log_scouter::extractor::Extractor;
use log_scouter::filters::{
    contains_ignore_case, hide_like, FilterRule, FilterSet, ACTIONS, OPS,
};
use log_scouter::library::{origin_label, LibraryItem, Origin};
use log_scouter::merge::merge_files;
use log_scouter::models::LogFileModel;
use log_scouter::search::{compile_query, compile_split, compile_token, Predicate};
use log_scouter::timestamp::parse_datetime;
use log_scouter::tokens::{parts_of, QueryPart};
use log_scouter::views::{apply_context, ViewModel, VisibleIndices};
use std::collections::HashSet;

const SAMPLE: &str = "2026-06-16 10:09:43.288 [HOST:log-host-1][SERVER:AppServer][PID:54][THR:136612056716864][Kernel][Trace][UID:0][SID:0][OID:0][ServerDispatcher.cpp:394] NetChannel : Channel is closed. remote 'ip-1'
2026-06-16 10:09:45.100 [HOST:log-host-1][SERVER:AppServer][PID:54][THR:136612056716864][SQL Engine][Warn][UID:0][SID:0][OID:0][Sql.cpp:12] statement completed in 312ms
2026-06-16 10:09:51.000 [HOST:log-host-1][SERVER:AppServer][PID:54][THR:136612056716864][Net][Error][0x800424FB][UID:0][SID:0][OID:0][Net.cpp:7] Cache miss for session 12
2026-06-16 10:09:55.000 [HOST:log-host-1][SERVER:AppServer][PID:54][THR:136612056716864][Kernel][Info][UID:0][SID:0][OID:0][Net.cpp:8] Session 12 reopened
2026-06-16 10:12:08.631 [HOST:log-host-1][SERVER:AppServer][PID:54][THR:136612056716864][Net][Fatal][UID:0][SID:0][OID:0][Net.cpp:9] giving up
2026-06-16 10:12:09.000 [HOST:log-host-1][SERVER:AppServer][PID:54][THR:136612056716864][Kernel][Trace][UID:0][SID:0][OID:0][ServerDispatcher.cpp:401] NetChannel : Channel is closed. remote 'ip-2'
2026-06-16 10:12:10.000 [HOST:log-host-1][SERVER:AppServer][PID:54][THR:136612056716864][Kernel][Info][UID:0][SID:0][OID:0][ServerDispatcher.cpp:402] done
2026-06-16 10:12:11.000 [HOST:log-host-1][SERVER:AppServer][PID:54][THR:136612056716864][Kernel][Info][UID:0][SID:0][OID:0][ServerDispatcher.cpp:403] idle";

fn lines(text: &str) -> Vec<String> {
    text.lines().map(str::to_string).collect()
}

fn owned(list: &[&str]) -> Vec<String> {
    list.iter().map(|s| s.to_string()).collect()
}

fn loaded(id: &str, extractor: Extractor, body: &[String]) -> LogFileModel {
    let name = extractor.name.clone();
    let path = format!("{id}.log");
    let mut model = LogFileModel::new(id, &path, &name, &path, Some(extractor));
    model.load_from_lines(body);
    model
}

fn sample_model() -> LogFileModel {
    loaded("f1", default_extractor().unwrap(), &lines(SAMPLE))
}

fn bracketed_model(id: &str, body: &[&str]) -> LogFileModel {
    loaded(id, default_extractor().unwrap(), &owned(body))
}

fn simple_model(id: &str, body: &[&str]) -> LogFileModel {
    let extractor =
        Extractor::with_timestamp_format("simple", "<timestamp> <level>: <message>", "%H:%M:%S")
            .unwrap();
    loaded(id, extractor, &owned(body))
}

fn synthetic(n: usize) -> LogFileModel {
    let mut body = Vec::new();
    let modules = ["Kernel", "Net", "SQL"];
    let levels = ["Trace", "Info", "Error"];
    for i in 0..n {
        body.push(format!(
            "2026-06-16 10:{:02}:{:02}.{:03} [HOST:h][SERVER:S][PID:1][THR:2][{}][{}][UID:0][SID:0][OID:0][F.cpp:{}] msg {}",
            (i / 60) % 60,
            i % 60,
            i % 1000,
            modules[i % 3],
            levels[i % 3],
            i,
            i
        ));
    }
    loaded("f1", default_extractor().unwrap(), &body)
}

#[test]
fn search_query_language_matches_expected_entries() {
    let model = sample_model();

    let q = compile_query("Cache miss");
    assert!(model.entries.iter().any(|entry| q.matches(&model, entry)));

    let q = compile_query("level=Error");
    let hits: Vec<_> = model
        .entries
        .iter()
        .filter(|entry| q.matches(&model, entry))
        .collect();
    assert!(!hits.is_empty());
    assert!(hits.iter().all(|entry| model.level(entry) == "Error"));

    let q = compile_query("module~SQL level=Warn");
    let hits: Vec<_> = model
        .entries
        .iter()
        .filter(|entry| q.matches(&model, entry))
        .collect();
    assert!(!hits.is_empty());
    assert!(hits
        .iter()
        .all(|entry| model.module(entry).to_lowercase().contains("sql")));
    assert!(hits.iter().all(|entry| model.level(entry) == "Warn"));

    let q = compile_query(r#""/completed in \d+ms/""#);
    assert!(model.entries.iter().any(|entry| q.matches(&model, entry)));

    let q = compile_query("after:2026-06-16T10:09:50 before:2026-06-16T10:09:56");
    let hits: Vec<_> = model
        .entries
        .iter()
        .filter(|entry| q.matches(&model, entry))
        .collect();
    assert!(!hits.is_empty());
    assert!(hits.iter().all(|entry| {
        let ts = model.timestamp(entry).unwrap();
        ts.second >= 50 && ts.second <= 56
    }));
}

#[test]
fn date_range_and_datetime_formats_work() {
    let model = sample_model();
    let q = compile_query("date:[2026-06-16T10:09:44..2026-06-16T10:09:46]");
    assert!(model.entries.iter().any(|entry| q.matches(&model, entry)));

    assert!(parse_datetime("2026-06-16").is_some());
    assert!(parse_datetime("2026-06-16 10:09").is_some());
    assert!(parse_datetime("2026-06-16 10:09:43.288").is_some());
    assert!(parse_datetime("nonsense").is_none());
}

#[test]
fn invalid_regex_is_recorded_not_raised() {
    let q = compile_query("/(unclosed/");
    assert!(!q.error.is_empty());
}

#[test]
fn filters_include_exclude_and_hide_like() {
    let model = sample_model();

    let mut filters = FilterSet::default();
    filters.add(FilterRule::new("level", "equals", "Trace", "exclude"));
    let visible: Vec<_> = model
        .entries
        .iter()
        .filter(|entry| filters.visible(&model, entry))
        .collect();
    assert!(visible.iter().all(|entry| model.level(entry) != "Trace"));
    assert!(visible.len() < model.entries.len());

    let mut filters = FilterSet::default();
    filters.add(FilterRule::new("level", "equals", "Error", "include"));
    let visible: Vec<_> = model
        .entries
        .iter()
        .filter(|entry| filters.visible(&model, entry))
        .collect();
    assert!(!visible.is_empty());
    assert!(visible.iter().all(|entry| model.level(entry) == "Error"));

    let kernel_index = model
        .entries
        .iter()
        .position(|entry| model.module(entry) == "Kernel")
        .unwrap();
    let mut filters = FilterSet::default();
    filters.add(hide_like(
        &model,
        &model.entries[kernel_index],
        "module",
        "",
        true,
    ));
    let visible: Vec<_> = model
        .entries
        .iter()
        .filter(|entry| filters.visible(&model, entry))
        .collect();
    assert!(visible.iter().all(|entry| model.module(entry) != "Kernel"));
}

#[test]
fn timestamp_range_filter_works() {
    let model = sample_model();
    let mut filters = FilterSet::default();
    filters.add(FilterRule::new(
        "timestamp",
        "range",
        "2026-06-16 10:09:50..",
        "include",
    ));
    let visible: Vec<_> = model
        .entries
        .iter()
        .filter(|entry| filters.visible(&model, entry))
        .collect();
    assert!(!visible.is_empty());
    assert!(visible
        .iter()
        .all(|entry| model.timestamp(entry).unwrap().second >= 50
            || model.timestamp(entry).unwrap().minute >= 10));
}

#[test]
fn view_model_fast_path_and_context_work() {
    let model = synthetic(1000);
    let mut view = ViewModel::new("L1", &model);
    assert_eq!(view.visible, VisibleIndices::Range(1000));

    view.filters
        .add(FilterRule::new("level", "equals", "Trace", "exclude"));
    view.rebuild(&model);
    assert!(matches!(view.visible, VisibleIndices::List(_)));
    assert!(view
        .visible
        .iter()
        .into_iter()
        .all(|index| model.level(&model.entries[index]) != "Trace"));

    let model = sample_model();
    let mut view = ViewModel::new("L1", &model);
    view.query = Some(compile_query("Fatal"));
    view.context = 2;
    view.rebuild(&model);
    assert!(!view.visible.is_empty());
    assert!(view.visible.len() < model.entries.len());
    assert!(view
        .visible
        .iter()
        .into_iter()
        .any(|index| view.match_set.contains(&index)));
}

#[test]
fn prepared_filters_agree_with_the_per_entry_path() {
    let model = sample_model();
    let mut filters = FilterSet::default();
    filters.add(FilterRule::new(
        "message",
        "regex",
        r"Cache\s+miss",
        "exclude",
    ));
    filters.add(FilterRule::new("level", "equals", "Error", "include"));

    let prepared = filters.prepare();
    for entry in &model.entries {
        assert_eq!(
            prepared.visible(&model, entry),
            filters.visible(&model, entry)
        );
    }
}

#[test]
fn an_invalid_regex_rule_matches_nothing_rather_than_panicking() {
    let model = sample_model();
    let mut filters = FilterSet::default();
    filters.add(FilterRule::new("message", "regex", "(unclosed", "exclude"));
    let visible = model
        .entries
        .iter()
        .filter(|entry| filters.visible(&model, entry))
        .count();
    assert_eq!(visible, model.entries.len());
}

#[test]
fn merge_interleaves_two_files_by_timestamp() {
    let left = bracketed_model(
        "f1",
        &[
            "2026-06-16 10:00:01.000 [HOST:h][SERVER:S][PID:1][THR:2][Kernel][Trace][UID:0][SID:0][OID:0][a.cpp:1] first",
            "2026-06-16 10:00:03.000 [HOST:h][SERVER:S][PID:1][THR:2][Kernel][Error][UID:0][SID:0][OID:0][a.cpp:2] third",
        ],
    );
    let right = bracketed_model(
        "f2",
        &[
            "2026-06-16 10:00:02.000 [HOST:h][SERVER:S][PID:1][THR:2][Net][Warn][UID:0][SID:0][OID:0][b.cpp:1] second",
            "2026-06-16 10:00:04.000 [HOST:h][SERVER:S][PID:1][THR:2][Net][Info][UID:0][SID:0][OID:0][b.cpp:2] fourth",
        ],
    );

    let merged = merge_files("m1", &[&left, &right]);
    assert!(merged.is_merged());
    assert_eq!(merged.entries.len(), 4);

    let messages: Vec<String> = merged
        .entries
        .iter()
        .map(|entry| merged.message(entry))
        .collect();
    assert_eq!(messages, ["first", "second", "third", "fourth"]);

    let origins: Vec<&str> = merged
        .entries
        .iter()
        .filter_map(|entry| merged.source_name(entry))
        .collect();
    assert_eq!(origins, ["f1.log", "f2.log", "f1.log", "f2.log"]);

    let stamps: Vec<_> = merged
        .entries
        .iter()
        .map(|entry| merged.timestamp(entry).unwrap())
        .collect();
    assert!(stamps.windows(2).all(|pair| !pair[1].before(&pair[0])));
}

#[test]
fn merge_applies_each_files_own_schema() {
    let bracketed = bracketed_model(
        "f1",
        &["2026-06-16 10:00:02.000 [HOST:h][SERVER:S][PID:1][THR:2][Kernel][Error][UID:0][SID:0][OID:0][a.cpp:7] boom"],
    );
    let simple = simple_model("f2", &["10:00:01 WARN: disk almost full"]);

    let merged = merge_files("m1", &[&bracketed, &simple]);
    assert_eq!(merged.entries.len(), 2);

    assert_eq!(merged.level(&merged.entries[0]), "WARN");
    assert_eq!(merged.message(&merged.entries[0]), "disk almost full");
    assert_eq!(merged.level(&merged.entries[1]), "Error");
    assert_eq!(merged.module(&merged.entries[1]), "Kernel");
    assert_eq!(merged.get_field(&merged.entries[1], "file"), "a.cpp");
    assert_eq!(merged.message(&merged.entries[1]), "boom");
}

#[test]
fn merge_keeps_untimestamped_lines_next_to_their_own_file() {
    let left = bracketed_model(
        "f1",
        &[
            "# Server Log version 2.0",
            "2026-06-16 10:00:03.000 [HOST:h][SERVER:S][PID:1][THR:2][Kernel][Trace][UID:0][SID:0][OID:0][a.cpp:1] late",
        ],
    );
    let right = bracketed_model(
        "f2",
        &["2026-06-16 10:00:01.000 [HOST:h][SERVER:S][PID:1][THR:2][Net][Info][UID:0][SID:0][OID:0][b.cpp:1] early"],
    );

    let merged = merge_files("m1", &[&left, &right]);
    let messages: Vec<String> = merged
        .entries
        .iter()
        .map(|entry| merged.message(entry))
        .collect();
    assert_eq!(messages[0], "early");
    assert_eq!(messages[1], "# Server Log version 2.0");
    assert_eq!(messages[2], "late");
}

#[test]
fn a_timeless_line_is_shown_right_behind_its_own() {
    let plain = |id: &str, body: &[&str]| {
        loaded(id, Extractor::new("plain", "<message>").unwrap(), &owned(body))
    };
    let left = plain(
        "f1",
        &["banner", "2026-06-16 10:00:01 up", "detail", "2026-06-16 10:00:02 down"],
    );
    let right = plain("f2", &["2026-06-16 10:00:01 hello", "more", "2026-06-16 10:00:02 bye"]);
    let merged = merge_files("m1", &[&left, &right]);
    let raws: Vec<&str> = merged.entries.iter().map(|entry| entry.raw.as_str()).collect();
    assert_eq!(
        raws,
        [
            "banner",
            "2026-06-16 10:00:01 up",
            "detail",
            "2026-06-16 10:00:01 hello",
            "more",
            "2026-06-16 10:00:02 down",
            "2026-06-16 10:00:02 bye"
        ]
    );
}

#[test]
fn an_empty_value_finds_the_lines_without_the_field() {
    let model = sample_model();
    let query = compile_query("error_code=");
    let found: Vec<usize> = (0..model.entries.len())
        .filter(|&i| query.matches(&model, &model.entries[i]))
        .collect();
    assert_eq!(found, [0, 1, 3, 4, 5, 6, 7]);
}

#[test]
fn filter_rules_can_be_scoped_to_a_log_schema() {
    let bracketed = bracketed_model(
        "bracketed",
        &["2026-06-16 10:00:01.000 [HOST:h][SERVER:S][PID:1][THR:2][Kernel][Trace][UID:0][SID:0][OID:0][a.cpp:1] noisy"],
    );
    let simple = simple_model("simple", &["10:00:01 Trace: same word different schema"]);
    let mut filters = FilterSet::default();
    filters.add(
        FilterRule::new("level", "equals", "Trace", "exclude").for_log_schema("Bracketed default"),
    );

    assert!(!filters.visible(&bracketed, &bracketed.entries[0]));
    assert!(filters.visible(&simple, &simple.entries[0]));
    assert_eq!(
        filters.rules[0].describe(),
        "exclude level equals 'Trace' on schema 'Bracketed default'"
    );
}

#[test]
fn scoped_include_filters_do_not_hide_other_schemas() {
    let bracketed = bracketed_model(
        "bracketed",
        &["2026-06-16 10:00:01.000 [HOST:h][SERVER:S][PID:1][THR:2][Kernel][Trace][UID:0][SID:0][OID:0][a.cpp:1] noisy"],
    );
    let simple = simple_model("simple", &["10:00:01 WARN: disk almost full"]);
    let mut filters = FilterSet::default();
    filters.add(
        FilterRule::new("level", "equals", "Error", "include").for_log_schema("Bracketed default"),
    );

    assert!(!filters.visible(&bracketed, &bracketed.entries[0]));
    assert!(filters.visible(&simple, &simple.entries[0]));
}

#[test]
fn schema_scoped_filters_apply_per_source_entry_in_a_merge() {
    let bracketed = bracketed_model(
        "bracketed",
        &["2026-06-16 10:00:02.000 [HOST:h][SERVER:S][PID:1][THR:2][Kernel][Trace][UID:0][SID:0][OID:0][a.cpp:1] bracketed trace"],
    );
    let simple = simple_model("simple", &["10:00:01 Trace: simple trace"]);
    let merged = merge_files("merged", &[&bracketed, &simple]);
    let mut filters = FilterSet::default();
    filters.add(FilterRule::new("level", "equals", "Trace", "exclude").for_log_schema("simple"));

    let visible: Vec<_> = merged
        .entries
        .iter()
        .filter(|entry| filters.visible(&merged, entry))
        .map(|entry| merged.message(entry))
        .collect();
    assert_eq!(visible, ["bracketed trace"]);
}

#[test]
fn a_time_range_is_recognised_whatever_the_field_is_called() {
    for field in ["timestamp", "time", "ts"] {
        let rule = FilterRule::new(field, "range", "a..b", "include");
        assert!(rule.is_time_range(), "{field} range not recognised");
    }
    assert!(!FilterRule::new("line_number", "range", "1..9", "include").is_time_range());
    assert!(!FilterRule::new("timestamp", "equals", "a", "include").is_time_range());
}

#[test]
fn time_bounds_split_a_range_and_allow_an_open_end() {
    let bounded = FilterRule::new("timestamp", "range", " a .. b ", "include");
    assert_eq!(bounded.time_bounds(), ("a", "b"));
    let from = FilterRule::new("timestamp", "range", "a..", "include");
    assert_eq!(from.time_bounds(), ("a", ""));
    let until = FilterRule::new("timestamp", "range", "..b", "include");
    assert_eq!(until.time_bounds(), ("", "b"));
}

#[test]
fn a_second_time_range_replaces_the_first_and_keeps_its_place() {
    let mut filters = FilterSet::default();
    filters.add(FilterRule::new("level", "equals", "Trace", "exclude"));
    filters.add(FilterRule::new("timestamp", "range", "a..b", "include"));
    filters.add(FilterRule::new("module", "contains", "SQL", "include"));
    assert_eq!(filters.rules.len(), 3);
    assert_eq!(filters.time_index(), Some(1));

    filters.add(FilterRule::new("timestamp", "range", "c..d", "include"));
    assert_eq!(filters.rules.len(), 3, "a second range was appended");
    assert_eq!(filters.time_index(), Some(1), "the range moved");
    assert_eq!(filters.time_rule().unwrap().value, "c..d");

    let text: Vec<(usize, &str)> = filters
        .text_rules()
        .into_iter()
        .map(|(index, rule)| (index, rule.field.as_str()))
        .collect();
    assert_eq!(text, [(0, "level"), (2, "module")]);

    filters.clear_time();
    assert_eq!(filters.time_rule(), None);
    assert_eq!(filters.rules.len(), 2);
    filters.clear_time();
    assert_eq!(filters.rules.len(), 2);
}

#[test]
fn only_the_latest_time_range_filters_the_log() {
    let model = sample_model();
    let mut filters = FilterSet::default();
    filters.add(FilterRule::new(
        "timestamp",
        "range",
        "2026-06-16 10:09:43..2026-06-16 10:12:20",
        "include",
    ));
    let wide = model
        .entries
        .iter()
        .filter(|entry| filters.visible(&model, entry))
        .count();

    filters.add(FilterRule::new(
        "timestamp",
        "range",
        "2026-06-16 10:09:43..2026-06-16 10:09:44",
        "include",
    ));
    let narrow = model
        .entries
        .iter()
        .filter(|entry| filters.visible(&model, entry))
        .count();

    assert!(
        narrow < wide,
        "the first range still applies: {narrow} of {wide}"
    );
    assert_eq!(filters.rules.len(), 1);
}

#[test]
fn set_time_removes_every_earlier_range_not_just_the_first() {
    let mut filters = FilterSet::default();
    filters
        .rules
        .push(FilterRule::new("timestamp", "range", "a..b", "include"));
    filters
        .rules
        .push(FilterRule::new("level", "equals", "Trace", "exclude"));
    filters
        .rules
        .push(FilterRule::new("timestamp", "range", "c..d", "include"));

    filters.set_time(FilterRule::new("timestamp", "range", "e..f", "include"));
    let ranges: Vec<&str> = filters
        .rules
        .iter()
        .filter(|rule| rule.is_time_range())
        .map(|rule| rule.value.as_str())
        .collect();
    assert_eq!(ranges, ["e..f"], "a stale range survived set_time");
    assert_eq!(filters.text_rules().len(), 1);
}

#[test]
fn dedupe_keeps_the_last_range_and_is_idempotent() {
    let mut filters = FilterSet::default();
    filters
        .rules
        .push(FilterRule::new("timestamp", "range", "old..x", "include"));
    filters
        .rules
        .push(FilterRule::new("host", "equals", "h", "exclude"));
    filters
        .rules
        .push(FilterRule::new("timestamp", "range", "new..y", "include"));

    filters.dedupe_time_range();
    assert_eq!(filters.time_rule().unwrap().value, "new..y");
    assert_eq!(
        filters.rules.iter().filter(|r| r.is_time_range()).count(),
        1
    );
    assert_eq!(filters.rules[0].field, "host");

    let before = filters.clone();
    filters.dedupe_time_range();
    assert_eq!(filters, before);

    let mut none = FilterSet::default();
    none.add(FilterRule::new("level", "equals", "Trace", "exclude"));
    let before = none.clone();
    none.dedupe_time_range();
    assert_eq!(none, before);
}

#[test]
fn a_leftover_wider_range_does_not_reopen_the_window() {
    let model = sample_model();
    let inside = |filters: &FilterSet| {
        model
            .entries
            .iter()
            .filter(|entry| filters.visible(&model, entry))
            .count()
    };

    let mut narrow = FilterSet::default();
    narrow.add(FilterRule::new(
        "timestamp",
        "range",
        "2026-06-16 10:09:43..2026-06-16 10:09:44",
        "include",
    ));
    let narrow_count = inside(&narrow);

    let mut broken = narrow.clone();
    broken.rules.insert(
        0,
        FilterRule::new(
            "timestamp",
            "range",
            "2026-06-16 10:09:43..2026-06-16 10:20:00",
            "include",
        ),
    );
    assert!(
        inside(&broken) > narrow_count,
        "two include ranges should OR wider -- otherwise this test proves nothing"
    );

    broken.dedupe_time_range();
    assert_eq!(inside(&broken), narrow_count);
}

#[test]
fn origins_are_labelled_for_the_picker() {
    assert_eq!(Origin::Project.label(), "[Project]");
    assert_eq!(Origin::User.label(), "[User]");
    assert_eq!(Origin::Bundled.label(), "[Bundled]");
    assert_eq!(Origin::Hub("acme".into()).label(), "[Hub acme]");
    assert_eq!(Origin::Hub("official".into()).label(), "[Hub official]");
}

// ---- rules, views and queries -----------------------------------------------------

#[test]
fn the_rules_know_their_operators() {
    assert_eq!(OPS, ["equals", "contains", "regex", "range"]);
    assert_eq!(ACTIONS, ["include", "exclude"]);
}

#[test]
fn an_item_keeps_its_origin() {
    let item = LibraryItem::new(7, Origin::User);
    assert_eq!(item.item, 7);
    assert!(item.origin.same(&Origin::User));
    assert!(!item.origin.same(&Origin::Hub("User".into())));
    assert_eq!(origin_label(Some(&Origin::User)), "[User]");
    assert_eq!(origin_label(None), "");
}

#[test]
fn the_origin_of_a_rule_does_not_make_it_another_rule() {
    let rule = FilterRule::new("level", "equals", "Trace", "exclude");
    let imported = rule.clone().from_library(Origin::Bundled);
    assert!(rule.same_rule(&imported));
    let mut a = FilterSet::default();
    a.add(rule);
    let mut b = FilterSet::default();
    b.add(imported);
    assert!(!a.same_set(&b), "a set keeps where its rules came from");
    assert!(a.same_set(&a));
    b.clear();
    assert!(!a.same_set(&b));
    assert!(a.has_enabled_rules());
    assert!(!b.has_enabled_rules());
}

#[test]
fn a_disabled_rule_hides_nothing() {
    let model = sample_model();
    let mut filters = FilterSet::default();
    let mut rule = FilterRule::new("level", "equals", "Trace", "exclude");
    rule.enabled = false;
    filters.add(rule);
    assert!(model
        .entries
        .iter()
        .all(|entry| filters.visible(&model, entry)));
}

#[test]
fn letters_match_in_any_case() {
    assert!(contains_ignore_case("Connection REFUSED", "refused"));
    assert!(!contains_ignore_case("Connection", "refused"));
    assert!(contains_ignore_case("anything", ""));
}

#[test]
fn context_shows_the_rows_around_a_match() {
    let base = VisibleIndices::Range(10);
    let matches: HashSet<usize> = [4].into_iter().collect();
    let (shown, _) = apply_context(&base, &[4], matches, 1);
    assert_eq!(shown.iter(), vec![3, 4, 5]);
    assert_eq!(shown.get(1), Some(4));
    assert_eq!(shown.get(3), None);
    assert_eq!(shown.as_slice_prefix(2), vec![3, 4]);
}

#[test]
fn the_cursor_stays_on_the_rows() {
    let model = sample_model();
    let mut view = ViewModel::new("L1", &model);
    view.move_cursor(-3);
    assert_eq!(view.cursor, 0);
    view.move_cursor(100);
    assert_eq!(view.cursor, 7);
    view.move_cursor_to(2);
    assert_eq!(view.current_index(), Some(2));
    assert_eq!(
        view.current_entry(&model).map(|entry| entry.line_no),
        Some(3)
    );
    assert!(!view.is_large(&model));
}

#[test]
fn a_selection_survives_moving_and_toggling_back() {
    let model = sample_model();
    let mut view = ViewModel::new("L1", &model);
    assert!(!view.has_selection());
    view.extend_selection(2);
    assert_eq!(view.selected_globals(), vec![0, 1, 2]);
    assert_eq!(view.selection_count(), 3);
    view.move_keeping_selection(3);
    assert_eq!(view.selected_globals(), vec![0, 1, 2]);
    view.toggle_current();
    assert_eq!(view.selected_globals(), vec![0, 1, 2, 5]);
    assert!(view.is_selected(5, 5));
    view.toggle_current();
    assert_eq!(view.selected_globals(), vec![0, 1, 2]);
    view.clear_selection();
    assert!(!view.has_selection());
}

#[test]
fn the_next_match_is_found_both_ways_round() {
    let model = sample_model();
    let mut view = ViewModel::new("L1", &model);
    view.query = Some(compile_query("Channel"));
    view.context = 0;
    view.rebuild(&model);
    let rows = view.match_positions();
    assert_eq!(rows.len(), 2);
    assert_eq!(view.next_match(rows[0], true), Some(rows[1]));
    assert_eq!(view.next_match(rows[1], true), Some(rows[0]));
    assert_eq!(view.next_match(rows[0], false), Some(rows[1]));
    assert_eq!(view.next_match(rows[1], false), Some(rows[0]));
}

#[test]
fn an_empty_query_matches_everything_and_more_tests_match_less() {
    let model = sample_model();
    let count = |text: &str| {
        let q = compile_query(text);
        model
            .entries
            .iter()
            .filter(|entry| q.matches(&model, entry))
            .count()
    };
    assert!(compile_query("   ").is_empty());
    assert_eq!(count(""), model.entries.len());
    assert_eq!(count("module=Kernel"), 5);
    assert_eq!(count("module=Kernel level=Info"), 3);
}

#[test]
fn a_query_is_compiled_from_its_words() {
    let words = Some(vec!["level=Error".to_string(), "Net Channel".to_string()]);
    let query = compile_split("level=Error 'Net Channel'", &vec![words]);
    assert_eq!(query.predicates.len(), 2);
    assert_eq!(query.error, "");
    let fallback = compile_split("a b  c", &vec![None]);
    assert_eq!(fallback.predicates.len(), 3);
    let spaced = compile_query("'Net Channel'");
    assert_eq!(spaced.predicates.len(), 1, "quotes hold words together");
    assert_eq!(compile_query("it's open").predicates.len(), 2);
    assert!(matches!(
        compile_token("level=Error").unwrap(),
        Predicate::FieldEq { field, value } if field == "level" && value == "Error"
    ));
    assert_eq!(
        compile_token("after:nonsense").unwrap_err(),
        "unrecognised date"
    );
    assert_eq!(compile_token("date:[..]").unwrap_err(), "empty date range");
}

#[test]
fn a_rule_is_written_back_as_it_is_typed() {
    let rule = FilterRule::new("message", "contains", "two words", "exclude");
    assert_eq!(
        rule.to_input(),
        "message contains exclude 'two words'"
    );
    assert_eq!(
        rule.for_log_schema(" My Schema ").to_input(),
        "'schema=My Schema' message contains exclude 'two words'"
    );
    let plain = FilterRule::new("level", "equals", "Trace", "include");
    assert_eq!(plain.to_input(), "level equals include Trace");
}

#[test]
fn entries_read_elsewhere_are_adopted() {
    let mut model = sample_model();
    model.error = "read error: x".to_string();
    model.adopt_entries(Vec::new());
    assert!(model.loaded);
    assert!(model.error.is_empty());
    assert!(model.entries.is_empty());
}

#[test]
fn only_all_entries_are_shown_without_a_list() {
    let model = sample_model();
    let mut view = ViewModel::new("L1", &model);
    assert!(matches!(view.visible, VisibleIndices::Range(_)));
    view.filters
        .add(FilterRule::new("level", "equals", "Trace", "exclude"));
    view.rebuild(&model);
    assert!(matches!(view.visible, VisibleIndices::List(_)));
}

#[test]
fn a_pattern_between_slashes_is_one_token() {
    let pattern = |text: &str| match &compile_query(text).predicates[..] {
        [Predicate::Regex(regex)] => regex.clone(),
        _ => panic!("{text} is not one pattern"),
    };
    assert_eq!(pattern(r"/completed in \d+ms/"), r"(?i)completed in \d+ms");
    assert_eq!(pattern(r#""/completed in \d+ms/""#), r"(?i)completed in \d+ms");
    assert_eq!(pattern("/var/log/"), "(?i)var/log");
    let model = sample_model();
    assert!(compile_query(r"/completed in \d+ms/").matches(&model, &model.entries[1]));
    assert!(!compile_query(r"/completed in \d+ms/").matches(&model, &model.entries[2]));

    assert_eq!(
        parts_of(r"level=Error /a 'b/ message=/c \d/ x"),
        [
            QueryPart::Plain("level=Error ".to_string()),
            QueryPart::Slashed("/a 'b/".to_string()),
            QueryPart::Slashed(r"message=/c \d/".to_string()),
            QueryPart::Plain(" x".to_string())
        ]
    );
    // Quotes hold their slashes, and a lone slash opens nothing.
    assert_eq!(
        parts_of("'a /b c/' 1 / 2 / 3"),
        [QueryPart::Plain("'a /b c/' 1 / 2 / 3".to_string())]
    );
    assert_eq!(compile_query("/var/log disk").predicates.len(), 2);
}
