use log_scouter::detect::default_extractor;
use log_scouter::extractor::Extractor;
use log_scouter::filters::{FilterRule, FilterSet};
use log_scouter::packs::{
    filter_export, has_extension, library_file_name, pack_file_name, pack_file_names, padded3,
    sanitize_file_component, schema_export,
};
use log_scouter::paths::{
    display_name, expand_tilde, file_name, join_path, path_components, resolve_home,
    user_filter_dir, user_schema_dir, user_search_dir, USER_SEARCHES_SUBDIR,
};
use log_scouter::search::{
    compile_query, default_search_library, install_default_search_library, search_export,
};

#[test]
fn home_dir_prefers_home_then_falls_back_to_windows() {
    assert_eq!(
        resolve_home(Some("/home/u"), Some(r"C:\Users\u"), None, None).as_deref(),
        Some("/home/u")
    );
    assert_eq!(
        resolve_home(None, Some(r"C:\Users\u"), None, None).as_deref(),
        Some(r"C:\Users\u")
    );
    assert_eq!(
        resolve_home(None, None, Some("C:"), Some(r"\Users\u")).as_deref(),
        Some(r"C:\Users\u")
    );
    assert_eq!(
        resolve_home(Some(""), Some(r"C:\Users\u"), None, None).as_deref(),
        Some(r"C:\Users\u")
    );
    assert_eq!(resolve_home(None, None, None, None), None);
}

#[test]
fn user_filter_dir_is_under_home() {
    let dir = user_filter_dir(Some("/home/u")).expect("a home gives a user filter dir");
    assert_eq!(dir, "/home/u/.log-scouter/filters");
    assert_eq!(user_filter_dir(None), None);
}

#[test]
fn user_search_dir_is_under_home() {
    let dir = user_search_dir(Some("/home/u")).expect("a home gives a user search dir");
    assert_eq!(dir, format!("/home/u/.log-scouter/{USER_SEARCHES_SUBDIR}"));
}

#[test]
fn user_schema_dir_sits_beside_the_filter_library() {
    let dir = user_schema_dir(Some("/home/u")).unwrap();
    assert!(dir.ends_with(".log-scouter/schemas"), "{dir}");
}

#[test]
fn expand_tilde_resolves_home_and_leaves_other_paths_alone() {
    let home = Some("/home/u");
    assert_eq!(expand_tilde("~", home), "/home/u");
    assert_eq!(
        expand_tilde("~/.log-scouter/filters", home),
        "/home/u/.log-scouter/filters"
    );
    assert_eq!(expand_tilde("  ~/x  ", home), "/home/u/x");
    assert_eq!(expand_tilde("/abs/path", home), "/abs/path");
    assert_eq!(expand_tilde("relative/path", home), "relative/path");
    assert_eq!(expand_tilde("~other/x", home), "~other/x");
}

#[test]
fn filters_export_and_load_as_individual_json_files() {
    let mut filters = FilterSet::default();
    filters.add(FilterRule::new("level", "equals", "Trace", "exclude"));
    filters.add(FilterRule::new("module", "contains", "SQL", "include"));

    let exported = filter_export(&filters);
    assert_eq!(exported.len(), 2);

    let mut names: Vec<String> = exported.iter().map(|(name, _)| name.clone()).collect();
    names.reverse();
    let files = pack_file_names(&names, "json");
    assert_eq!(files.len(), 2);
    assert_eq!(files[0], exported[0].0, "the files sort in their order");

    let first = &exported[0].1;
    assert!(!first.name.is_empty());
    assert!(first.description.contains("level"));
    assert_eq!(first.filter, filters.rules[0]);
    assert_eq!(exported[1].1.filter, filters.rules[1]);
}

#[test]
fn filters_round_trip_through_the_user_level_library() {
    let mut source = FilterSet::default();
    source.add(FilterRule::new("level", "equals", "Trace", "exclude"));
    source.add(FilterRule::new("module", "contains", "SQL", "include"));

    let mut target = FilterSet::default();
    for (_, file) in filter_export(&source) {
        target.add(file.filter);
    }
    assert_eq!(target.rules, source.rules);
}

#[test]
fn saved_searches_export_load_and_default_queries_compile() {
    let searches = vec![
        "level=Error".to_string(),
        r#"/request[-_]?id|trace[-_]?id/"#.to_string(),
    ];
    let exported = search_export(&searches);
    assert_eq!(exported.len(), 2);
    assert_eq!(
        exported
            .iter()
            .map(|(_, search)| search.query.as_str())
            .collect::<Vec<_>>(),
        vec!["level=Error", r#"/request[-_]?id|trace[-_]?id/"#]
    );

    let defaults = default_search_library();
    for name in [
        "Authentication failures",
        "Database connection exhaustion",
        "Kubernetes restart patterns",
        "Java exception chains",
        "Request-ID tracing",
    ] {
        assert!(defaults.iter().any(|search| search.name == name), "{name}");
    }
    for search in defaults {
        let query = compile_query(&search.query);
        assert!(
            query.error.is_empty(),
            "{} did not compile: {}",
            search.name,
            query.error
        );
    }

    let installed = install_default_search_library(&[]);
    assert_eq!(installed.len(), 5);
    let taken: Vec<String> = installed.into_iter().map(|(name, _)| name).collect();
    assert_eq!(
        install_default_search_library(&taken).len(),
        0,
        "installing defaults is idempotent"
    );
}

#[test]
fn schemas_export_and_import_as_individual_json_files() {
    let custom =
        Extractor::with_timestamp_format("compact", "<timestamp> <level>: <message>", "%H:%M:%S")
            .unwrap()
            .with_description("compact service log");
    let schemas = vec![default_extractor().unwrap(), custom];

    let exported = schema_export(&schemas);
    assert_eq!(exported.len(), 2);
    assert_ne!(exported[0].0, exported[1].0);
    let compact = exported
        .iter()
        .map(|(_, file)| file)
        .find(|file| file.name == "compact")
        .expect("compact schema exported");
    assert_eq!(compact.description, "compact service log");
    assert_eq!(compact.schema.timestamp_format, "%H:%M:%S");

    let fields = compact
        .schema
        .extract("10:00:01 WARN: disk almost full")
        .unwrap();
    assert!(fields.contains(&("level".to_string(), "WARN".to_string())));
    assert!(fields.contains(&("message".to_string(), "disk almost full".to_string())));
}

#[test]
fn exported_schema_keeps_optional_fields() {
    let exported = schema_export(&[default_extractor().unwrap()]);
    let schema = &exported[0].1.schema;
    assert!(schema.format.contains("<error_code?>"), "{}", schema.format);
    let line = "2026-06-16 10:12:08.631 [HOST:h1][SERVER:AppServer][PID:53][THR:135332369409600][Query Engine][Error][0x800424FB][UID:5CCC][SID:B830][OID:72EF][QueryEngine.cpp:6580] We could not obtain the data.";
    let fields = schema.extract(line).unwrap();
    assert!(fields.contains(&("log_level".to_string(), "Error".to_string())));
    assert!(fields.contains(&("error_code".to_string(), "0x800424FB".to_string())));
}

#[test]
fn samples_round_trip_through_a_schema_pack() {
    let exported = schema_export(&[default_extractor().unwrap()]);
    let samples = &exported[0].1.schema.samples;
    assert_eq!(samples.len(), 3);
    assert_eq!(samples[1].level.as_deref(), Some("Error"));
}

// ---- names and places -------------------------------------------------------------

#[test]
fn file_names_are_safe_and_step_aside() {
    let safe = sanitize_file_component("a/b\\c:d ../e");
    assert!(!safe.contains('/') && !safe.contains('\\'), "{safe}");
    assert_eq!(padded3(7), "007");
    assert_eq!(padded3(1234), "1234");
    assert!(pack_file_name(2, "x").ends_with(".json"));
    let first = library_file_name("noise", &[]);
    let second = library_file_name("noise", &[first.clone()]);
    assert_ne!(first, second);
}

#[test]
fn an_extension_is_what_follows_the_last_dot() {
    assert!(has_extension("a.b.json", "json"));
    assert!(!has_extension(".json", "json"));
    assert!(!has_extension("json", "json"));
    assert!(has_extension("a.", ""));
}

#[test]
fn paths_are_text_with_slashes() {
    assert_eq!(join_path("/a", "b"), "/a/b");
    assert_eq!(join_path("/a/", "b"), "/a/b");
    assert_eq!(join_path("/a", "/b"), "/b");
    assert_eq!(file_name("/a/b.log"), Some("b.log"));
    assert_eq!(file_name("/a/.."), None);
    assert_eq!(path_components("/a//b/./c"), ["/", "a", "b", "c"]);
    assert_eq!(display_name("/var/log/app.log"), "app.log");
    for (base, tail) in [("/a", "b"), ("/a/", "b"), ("a", "b/c"), ("/a", "/b")] {
        let joined = std::path::Path::new(base).join(tail);
        assert_eq!(join_path(base, tail), joined.to_string_lossy());
    }
}

#[test]
fn there_is_always_a_free_name() {
    let mut taken: Vec<String> = Vec::new();
    for k in 1..=120 {
        let name = library_file_name("noise", &taken);
        assert!(!taken.contains(&name), "{name}");
        assert_eq!(
            name,
            match k {
                1 => "noise.json".to_string(),
                _ => format!("noise-{k}.json"),
            }
        );
        taken.push(name);
    }
    taken.remove(6);
    assert_eq!(library_file_name("noise", &taken), "noise-7.json");
    assert_eq!(library_file_name("", &[]), "item.json");
}
