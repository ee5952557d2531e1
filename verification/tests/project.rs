use log_scouter::detect::default_extractor;
use log_scouter::extractor::{
    Extractor, SampleLine, BRACKETED_DEFAULT_FORMAT, BRACKETED_LEGACY_FORMAT,
    GENERIC_EXTRACTOR_NAME,
};
use log_scouter::filters::{FilterRule, FilterSet};
use log_scouter::json::{read_json, write_json};
use log_scouter::merge::merge_files;
use log_scouter::models::LogFileModel;
use log_scouter::project::{
    file_place, is_text_chunk, project_version, relative_path, text_files_in_dir, FileData,
    FolderFile, NewFile, PaneSession, Project, ProjectData, Session,
};

const SAMPLE: &str = "2026-06-16 10:09:43.288 [HOST:log-host-1][SERVER:AppServer][PID:54][THR:136612056716864][Kernel][Trace][UID:0][SID:0][OID:0][ServerDispatcher.cpp:394] NetChannel : Channel is closed. remote 'ip-1'
2026-06-16 10:09:44.100 [HOST:log-host-1][SERVER:AppServer][PID:54][THR:136612056716864][SQL][Warn][UID:0][SID:0][OID:0][Sql.cpp:12] slow statement
2026-06-16 10:09:51.000 [HOST:log-host-1][SERVER:AppServer][PID:54][THR:136612056716864][Net][Error][0x800424FB][UID:0][SID:0][OID:0][Net.cpp:7] no route";
const COMPACT_LOG: &str = "10:00:01 WARN: disk almost full\n10:00:02 INFO: recovered\n";
const A_LINE: &str = "2026-06-16 10:00:01.000 [HOST:h][SERVER:S][PID:1][THR:2][Kernel][Trace][UID:0][SID:0][OID:0][a.cpp:1] one\n";
const B_LINE: &str = "2026-06-16 10:00:02.000 [HOST:h][SERVER:S][PID:1][THR:2][Net][Info][UID:0][SID:0][OID:0][b.cpp:1] two\n";

fn lines(text: &str) -> Vec<String> {
    text.lines().map(str::to_string).collect()
}

fn compact_schema() -> Extractor {
    Extractor::with_timestamp_format("compact", "<timestamp> <level>: <message>", "%H:%M:%S")
        .unwrap()
}

/// A project at `/p` over files that are held here.
struct Desk {
    project: Project,
    disk: Vec<(String, String)>,
}

impl Desk {
    fn new(disk: &[(&str, &str)]) -> Desk {
        Desk {
            project: Project::new("/p").unwrap(),
            disk: disk
                .iter()
                .map(|(name, text)| (format!("/p/{name}"), text.to_string()))
                .collect(),
        }
    }

    fn read(&self, path: &str) -> Option<Vec<String>> {
        self.disk
            .iter()
            .find(|(name, _)| name == path)
            .map(|(_, text)| lines(text))
    }

    /// Add a file, and give back its id.
    fn add(&mut self, name: &str, asked: Option<&str>) -> String {
        let path = format!("/p/{name}");
        let places: Vec<String> = self
            .project
            .files
            .iter()
            .map(|file| file.path.clone())
            .collect();
        let head = self.read(&path);
        let i = self
            .project
            .add_file(&places, &path, asked, head.as_ref())
            .unwrap();
        self.project.files[i].file_id.clone()
    }

    fn load_all(&mut self) {
        let heads: Vec<Option<Vec<String>>> = self
            .project
            .files
            .iter()
            .map(|file| self.read(&file.path))
            .collect();
        let contents: Vec<Result<Vec<String>, String>> = heads
            .iter()
            .map(|head| head.clone().ok_or("no such file".to_string()))
            .collect();
        self.project.load_all_files(&heads, &contents).unwrap();
    }

    /// The project as it opens from what it saves.
    fn reopened(&self) -> Project {
        let data = self.project.to_data();
        let places = data
            .files
            .iter()
            .map(|file| file_place("/p", &file.path))
            .collect();
        Project::load("/p", Some(data), &places).unwrap()
    }

    fn schema_of(&self, id: &str) -> &str {
        &self.project.get_file(id).unwrap().extractor_name
    }
}

#[test]
fn project_merges_files_and_does_not_persist_the_merged_view() {
    let mut desk = Desk::new(&[("a.log", A_LINE), ("b.log", B_LINE)]);
    let id_a = desk.add("a.log", None);
    let id_b = desk.add("b.log", None);
    desk.load_all();

    let merged_id = desk
        .project
        .add_merged(&[id_a.clone(), id_b.clone()])
        .unwrap();
    assert_eq!(desk.project.files.len(), 3);
    assert_eq!(desk.project.get_file(&merged_id).unwrap().entries.len(), 2);

    // Merging the same pair again reuses the existing view.
    assert_eq!(
        desk.project
            .add_merged(&[id_a.clone(), id_b.clone()])
            .unwrap(),
        merged_id
    );
    assert_eq!(desk.project.files.len(), 3);

    // Fewer than two files is not a merge; a merged view cannot be re-merged.
    assert!(desk.project.add_merged(&[id_a.clone()]).is_err());
    assert!(desk
        .project
        .add_merged(&[merged_id.clone(), id_a.clone()])
        .is_err());

    let reloaded = desk.reopened();
    assert_eq!(reloaded.files.len(), 2, "merged view must not be persisted");
    assert!(reloaded.files.iter().all(|file| !file.is_merged()));

    // Removing a source file drops the merge built on it.
    desk.project.remove_file(&id_a);
    assert!(desk.project.get_file(&merged_id).is_none());
}

#[test]
fn a_files_schema_can_be_changed_independently() {
    let mut desk = Desk::new(&[
        ("a.log", "10:00:01 WARN: disk almost full\n"),
        ("b.log", B_LINE),
    ]);
    let id_a = desk.add("a.log", None);
    let id_b = desk.add("b.log", None);
    desk.load_all();

    // `a` does not match the bracketed schema, so it has no level.
    let file_a = desk.project.get_file(&id_a).unwrap();
    assert_eq!(file_a.level(&file_a.entries[0]), "");

    let simple =
        Extractor::with_timestamp_format("simple", "<timestamp> <level>: <message>", "%H:%M:%S")
            .unwrap();
    desk.project.add_extractor(simple).unwrap();
    desk.project.set_file_extractor(&id_a, "simple").unwrap();
    // Changing the schema invalidates the parse; the caller must re-read.
    assert!(!desk.project.get_file(&id_a).unwrap().loaded);
    desk.load_all();

    let file_a = desk.project.get_file(&id_a).unwrap();
    assert_eq!(file_a.level(&file_a.entries[0]), "WARN");
    assert_eq!(file_a.message(&file_a.entries[0]), "disk almost full");

    // `b` is untouched and still uses the bracketed schema.
    let file_b = desk.project.get_file(&id_b).unwrap();
    assert_eq!(file_b.level(&file_b.entries[0]), "Info");
    assert_eq!(file_b.module(&file_b.entries[0]), "Net");

    // The per-file schema survives a save/load round trip.
    let reloaded = desk.reopened();
    assert_eq!(reloaded.get_file(&id_a).unwrap().extractor_name, "simple");
    assert_eq!(
        reloaded.get_file(&id_b).unwrap().extractor_name,
        "Bracketed default"
    );
}

#[test]
fn project_persists_compatible_json() {
    let mut desk = Desk::new(&[("a.log", SAMPLE)]);
    desk.add("a.log", None);
    desk.project.saved_searches.push("level=Error".to_string());

    let reloaded = desk.reopened();
    assert_eq!(reloaded.files.len(), 1);
    assert_eq!(reloaded.saved_searches, vec!["level=Error"]);
    assert_eq!(reloaded.config_path(), "/p/.logscouter/project.json");
}

#[test]
fn project_autosaves_and_restores_filters() {
    let mut desk = Desk::new(&[]);
    assert!(desk.project.filters.rules.is_empty());
    desk.project
        .filters
        .add(FilterRule::new("level", "equals", "Trace", "exclude"));
    desk.project.filters.add(FilterRule::new(
        "message",
        "contains",
        "TimeOut()",
        "exclude",
    ));

    let reloaded = desk.reopened();
    assert_eq!(reloaded.filters.rules.len(), 2);
    assert_eq!(reloaded.filters.rules[0].field, "level");
    assert_eq!(reloaded.filters.rules[1].value, "TimeOut()");

    // The restored set actually filters entries, not just round-trips as data.
    let extractor = default_extractor().unwrap();
    let mut model = LogFileModel::new(
        "f1",
        "sample.log",
        "Bracketed default",
        "",
        Some(extractor),
    );
    model.load_from_lines(&lines(SAMPLE));
    let visible: Vec<_> = model
        .entries
        .iter()
        .filter(|entry| reloaded.filters.visible(&model, entry))
        .collect();
    assert!(!visible.is_empty());
    assert!(visible.iter().all(|entry| model.level(entry) != "Trace"));
}

#[test]
fn schema_descriptions_survive_project_round_trip() {
    let mut desk = Desk::new(&[]);
    let schema = Extractor::new("simple", "<timestamp> <level>: <message>")
        .unwrap()
        .with_description("compact one-line service log");

    desk.project.add_extractor(schema).unwrap();

    let reloaded = desk.reopened();
    let simple = reloaded
        .extractors
        .iter()
        .find(|schema| schema.name == "simple")
        .unwrap();
    assert_eq!(simple.description, "compact one-line service log");
}

#[test]
fn adding_a_file_detects_its_schema_instead_of_guessing() {
    let mut desk = Desk::new(&[("server.log", SAMPLE), ("compact.log", COMPACT_LOG)]);
    desk.project
        .add_extractor(default_extractor().unwrap())
        .unwrap();
    desk.project.add_extractor(compact_schema()).unwrap();
    desk.project
        .add_extractor(Extractor::new("aaa-generic", "<message>").unwrap())
        .unwrap();

    let server = desk.add("server.log", None);
    assert_eq!(desk.schema_of(&server), "Bracketed default");
    let compact = desk.add("compact.log", None);
    assert_eq!(desk.schema_of(&compact), "compact");
}

#[test]
fn adding_a_folder_loads_direct_text_files_only() {
    let listed = vec![
        FolderFile {
            path: "/p/b.log".to_string(),
            start: Some(b"plain text\n".to_vec()),
        },
        FolderFile {
            path: "/p/a.txt".to_string(),
            start: Some(b"more text\n".to_vec()),
        },
        FolderFile {
            path: "/p/bin.dat".to_string(),
            start: Some(b"text\0binary".to_vec()),
        },
    ];
    let paths = text_files_in_dir(&listed);
    assert_eq!(paths, ["/p/a.txt", "/p/b.log"]);

    let mut desk = Desk::new(&[("b.log", "plain text\n"), ("a.txt", "more text\n")]);
    let new: Vec<NewFile> = paths
        .iter()
        .map(|path| NewFile {
            path: path.clone(),
            lines: desk.read(path),
        })
        .collect();
    let added = desk.project.add_text_files(&Vec::new(), &new).unwrap();
    assert_eq!(added, 2);
    let names: Vec<&str> = desk
        .project
        .files
        .iter()
        .map(|file| file.display_name.as_str())
        .collect();
    assert_eq!(names, ["a.txt", "b.log"]);
}

/// An explicit schema name still wins over detection.
#[test]
fn an_explicit_schema_name_skips_detection() {
    let mut desk = Desk::new(&[("server.log", SAMPLE)]);
    desk.project
        .add_extractor(default_extractor().unwrap())
        .unwrap();
    desk.project.add_extractor(compact_schema()).unwrap();
    let id = desk.add("server.log", Some("compact"));
    assert_eq!(desk.schema_of(&id), "compact");
}

/// A file nothing matches, and an unreadable one, both land on a stable fallback.
#[test]
fn the_fallback_schema_is_the_builtin_not_a_hash_order_accident() {
    let mut desk = Desk::new(&[("junk.log", "prose\nmore prose\n")]);
    desk.project
        .add_extractor(default_extractor().unwrap())
        .unwrap();
    desk.project.add_extractor(compact_schema()).unwrap();
    desk.project
        .add_extractor(Extractor::new("aaa-first-alphabetically", "<a>=<b>").unwrap())
        .unwrap();

    assert_eq!(
        desk.project.default_extractor_obj().unwrap().name,
        "Bracketed default"
    );
    let id = desk.add("missing.log", None);
    assert_eq!(
        desk.schema_of(&id),
        "Bracketed default",
        "an unreadable file falls back rather than erroring"
    );
}

/// Without the built-in present, the fallback is still stable: first name alphabetically.
#[test]
fn the_fallback_without_the_builtin_is_the_first_name() {
    let mut project = Project::new("/p").unwrap();
    project.extractors.clear();
    project.add_extractor(compact_schema()).unwrap();
    project
        .add_extractor(Extractor::new("aaa-other", "<message>").unwrap())
        .unwrap();
    assert_eq!(project.default_extractor_obj().unwrap().name, "aaa-other");
}

fn saved(extractors: Vec<Extractor>) -> ProjectData {
    ProjectData {
        version: 1,
        file_counter: 0,
        files: Vec::new(),
        extractors,
        saved_searches: Vec::new(),
        filters: FilterSet { rules: Vec::new() },
        session: None,
        settings: read_json("{}").unwrap(),
    }
}

/// Loading a project is relaxed: a stored schema with a stale sample must survive, or
/// every file using it would be silently repointed at another schema.
#[test]
fn a_stored_schema_with_a_failing_sample_still_loads() {
    let mut stale = Extractor::unbuilt("stale", "<timestamp> <level>: <message>");
    stale.samples = vec![SampleLine::with_level("10:00:01 WARN: x", "NOPE")];
    let project = Project::load("/p", Some(saved(vec![stale])), &Vec::new()).unwrap();
    assert!(project
        .extractors
        .iter()
        .any(|schema| schema.name == "stale"));
}

#[test]
fn a_folder_of_mixed_formats_merges_in_timestamp_order() {
    let mut desk = Desk::new(&[
        (
            "a.log",
            "2026-06-16 10:00:01.000 [HOST:h][SERVER:S][PID:1][THR:2][Kernel][Trace][UID:0][SID:0][OID:0][a.cpp:1] alpha one\n\
             2026-06-16 10:00:03.000 [HOST:h][SERVER:S][PID:1][THR:2][Kernel][Trace][UID:0][SID:0][OID:0][a.cpp:2] alpha two\n",
        ),
        (
            "b.log",
            "2026-06-16 10:00:02.000 INFO beta one\n2026-06-16 10:00:04.000 INFO beta two\n",
        ),
    ]);
    desk.add("a.log", None);
    desk.add("b.log", None);
    desk.load_all();
    assert_eq!(desk.project.files[1].extractor_name, GENERIC_EXTRACTOR_NAME);

    let sources: Vec<&LogFileModel> = desk.project.files.iter().collect();
    let merged = merge_files("m1", &sources);
    assert_eq!(merged.entries.len(), 4);

    // The two schemas interleave: each file's lines land where their timestamps say.
    let expected = ["alpha one", "beta one", "alpha two", "beta two"];
    for (entry, want) in merged.entries.iter().zip(expected) {
        assert!(
            entry.raw.ends_with(want),
            "{:?} should end with {want}",
            entry.raw
        );
    }
    let stamps: Vec<_> = merged
        .entries
        .iter()
        .map(|entry| merged.timestamp(entry).expect("every line carries a time"))
        .collect();
    let key = |i: usize| {
        let s = &stamps[i];
        (s.year, s.month, s.day, s.hour, s.minute, s.second, s.nanos)
    };
    assert!((1..4).all(|i| key(i - 1) <= key(i)), "{stamps:?}");
}

#[test]
fn a_stored_schema_that_explains_nothing_is_re_detected_on_load() {
    // A schema pinned on a file it cannot read. Loading heals it rather than serving one
    // giant entry.
    let mut desk = Desk::new(&[(
        "plain.log",
        "2026-06-16 10:00:02,000 INFO beta one\nsecond line\n",
    )]);
    desk.add("plain.log", Some("Bracketed default"));
    assert_eq!(desk.project.files[0].extractor_name, "Bracketed default");

    desk.load_all();
    assert_eq!(desk.project.files[0].extractor_name, GENERIC_EXTRACTOR_NAME);
    assert_eq!(desk.project.files[0].entries.len(), 2);
}

#[test]
fn a_deliberate_schema_that_does_explain_the_file_survives_load() {
    // Healing must only fire on a schema that matches nothing at all.
    let mut desk = Desk::new(&[("compact.log", COMPACT_LOG)]);
    desk.project.add_extractor(compact_schema()).unwrap();
    desk.add("compact.log", Some("compact"));

    desk.load_all();
    let file = &desk.project.files[0];
    assert_eq!(file.extractor_name, "compact");
    assert_eq!(file.level(&file.entries[0]), "WARN");
}

// ---- files, schemas and saving ----------------------------------------------------

#[test]
fn a_file_is_added_once() {
    let mut desk = Desk::new(&[("a.log", A_LINE)]);
    let first = desk.add("a.log", None);
    assert_eq!(first, "f1");
    assert_eq!(desk.add("a.log", Some("compact")), first);
    assert_eq!(desk.project.files.len(), 1);
    assert_eq!(desk.project.files[0].display_name, "a.log");
    assert_eq!(desk.project.file_index("f1"), Some(0));
    assert_eq!(desk.project.file_index("f2"), None);
    assert!(desk.project.get_file_mut("f2").is_none());
}

#[test]
fn a_file_that_cannot_be_read_says_so_and_is_left_alone() {
    let mut desk = Desk::new(&[]);
    let id = desk.add("gone.log", None);
    desk.load_all();
    let file = desk.project.get_file(&id).unwrap();
    assert_eq!(file.error, "read error: no such file");
    assert!(!file.loaded);
    desk.project.load_file(0, &Ok(lines("now it is there")));
    assert!(desk.project.files[0].entries.is_empty());
}

#[test]
fn changing_a_schema_names_what_is_wrong() {
    let mut desk = Desk::new(&[("a.log", A_LINE), ("b.log", B_LINE)]);
    let id_a = desk.add("a.log", None);
    let id_b = desk.add("b.log", None);
    desk.load_all();
    let merged = desk.project.add_merged(&[id_a, id_b]).unwrap();
    assert_eq!(
        desk.project
            .set_file_extractor("nope", "Bracketed default")
            .unwrap_err(),
        "unknown file nope"
    );
    assert_eq!(
        desk.project
            .set_file_extractor(&merged, "Bracketed default")
            .unwrap_err(),
        "a merged view takes each file's own schema"
    );
    assert_eq!(
        desk.project
            .add_merged(&["f1".to_string(), "zzz".to_string()])
            .unwrap_err(),
        "unknown file zzz"
    );
}

#[test]
fn a_schema_of_the_same_name_is_replaced() {
    let mut project = Project::new("/p").unwrap();
    let before = project.extractors.len();
    project.add_extractor(compact_schema()).unwrap();
    project
        .add_extractor(compact_schema().with_description("again"))
        .unwrap();
    assert_eq!(project.extractors.len(), before + 1);
    assert_eq!(project.get_extractor("compact").unwrap().description, "again");
    let mut broken = Extractor::unbuilt("broken", "<message>");
    broken.entry_start = "(".to_string();
    assert!(project.add_extractor(broken).is_err());
    assert_eq!(project.extractors.len(), before + 1);
}

#[test]
fn paths_are_saved_relative_and_lead_back() {
    assert_eq!(relative_path("/p", "/p/logs/a.log"), "logs/a.log");
    assert_eq!(relative_path("/p", "/elsewhere/a.log"), "/elsewhere/a.log");
    assert_eq!(file_place("/p", "logs/a.log"), "/p/logs/a.log");
    assert_eq!(file_place("/p", "/elsewhere/a.log"), "/elsewhere/a.log");
    let project = Project::new("/p").unwrap();
    assert_eq!(project.rel("/p/a.log"), "a.log");
    assert_eq!(project.config_dir(), "/p/.logscouter");
}

#[test]
fn a_saved_file_without_a_name_takes_its_paths() {
    let mut data = saved(Vec::new());
    data.file_counter = 7;
    data.files.push(FileData {
        file_id: "f7".to_string(),
        path: "logs/a.log".to_string(),
        extractor_name: "Bracketed default".to_string(),
        display_name: "a.log".to_string(),
        label: "mine".to_string(),
        description: "d".to_string(),
    });
    let places = vec!["/p/logs/a.log".to_string()];
    let project = Project::load("/p", Some(data), &places).unwrap();
    assert_eq!(project.file_counter, 7);
    let file = project.get_file("f7").unwrap();
    assert_eq!(file.path, "/p/logs/a.log");
    assert_eq!(file.label, "mine");
    assert_eq!(file.extractor.as_ref().unwrap().name, "Bracketed default");
    assert!(!file.loaded);
}

#[test]
fn text_is_told_from_binary_by_its_start() {
    assert!(is_text_chunk(b""));
    assert!(is_text_chunk("naïve".as_bytes()));
    assert!(!is_text_chunk(b"a\0b"));
}

#[test]
fn a_fresh_project_has_its_settings_and_no_session() {
    let project = Project::new("/p").unwrap();
    assert_eq!(write_json(&project.settings), "{\"context_default\":3}");
    assert!(project.session.is_none());
    assert!(Session::default().is_empty());
    let mut session = Session::default();
    session.panes.push(PaneSession::default());
    assert!(!session.is_empty());
}

#[test]
fn an_outdated_format_is_brought_up_to_date() {
    let old = Extractor::unbuilt("mine", BRACKETED_LEGACY_FORMAT);
    let project = Project::load("/p", Some(saved(vec![old])), &Vec::new()).unwrap();
    let mine = project
        .extractors
        .iter()
        .find(|schema| schema.name == "mine")
        .unwrap();
    assert_eq!(mine.format, BRACKETED_DEFAULT_FORMAT);
}

#[test]
fn saved_schemas_come_back_as_they_were() {
    let mut desk = Desk::new(&[]);
    desk.project.add_extractor(compact_schema()).unwrap();
    let before = desk.project.get_extractor("compact").unwrap();
    let mut reloaded = desk.reopened();
    let after = reloaded.get_extractor("compact").unwrap();
    assert_eq!(after.regex, before.regex);
    assert_eq!(after.start_regex, before.start_regex);
    assert_eq!(after.field_names, before.field_names);
    assert_eq!(after.timestamp_format, before.timestamp_format);
}

#[test]
fn a_project_is_saved_whole() {
    let mut desk = Desk::new(&[("a.log", A_LINE), ("b.log", B_LINE)]);
    let id_a = desk.add("a.log", None);
    let id_b = desk.add("b.log", None);
    desk.load_all();
    desk.project.add_merged(&[id_a.clone(), id_b]).unwrap();
    desk.project.saved_searches.push("level=Error".to_string());
    desk.project.session = Some(Session {
        panes: vec![PaneSession {
            file_ids: vec![id_a],
            query: "one".to_string(),
            context: 2,
        }],
        focused_pane: 0,
        split_mode: "vertical".to_string(),
        sidebar_width: Some(30),
        results_height: None,
        detail_height: None,
        chat_height: None,
        pane_weights: vec![3, 1],
        hide_sidebar: false,
        hide_detail: true,
        hide_chat: false,
        hide_results: false,
        focus_mode: false,
        timeline_field: None,
    });
    let data = desk.project.to_data();
    assert_eq!(data.version, 1);
    assert_eq!(data.files.len(), 2, "the merged view is left out");
    assert_eq!(data.files[0].path, "a.log");
    assert_eq!(data.extractors.len(), 2);

    let later = desk.reopened();
    assert_eq!(later.session, desk.project.session);
    assert_eq!(later.saved_searches, ["level=Error"]);
    assert_eq!(later.file_counter, 3);
    assert_eq!(later.files[1].path, "/p/b.log");
    assert_eq!(later.files[1].extractor_name, desk.project.files[1].extractor_name);
    assert!(!later.files[1].loaded);
}

#[test]
fn a_leading_dot_is_a_step() {
    for (root, path) in [
        ("a", "./a/b"),
        ("./a", "a/b"),
        ("./a", "./a/b"),
        (".", "./b"),
        (".", "b"),
        ("", "./b/"),
        ("", "."),
        ("a/./c", "a/c/d"),
        ("/a", "/a/./b"),
        ("/a", "b"),
        ("/a", "/ab"),
    ] {
        let seen = std::path::Path::new(path);
        let want = seen.strip_prefix(root).unwrap_or(seen);
        assert_eq!(relative_path(root, path), want.to_string_lossy(), "{path} from {root}");
    }
}
