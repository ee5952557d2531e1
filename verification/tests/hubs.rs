use log_scouter::cli::{
    hub_added_text, hub_listing, nothing_synced, remove_hub, set_auto_sync, set_hub_enabled,
    sync_text,
};
use log_scouter::clock::Moment;
use log_scouter::extractor::Extractor;
use log_scouter::filters::{FilterFile, FilterRule};
use log_scouter::hub::{
    all_hub_schemas, auto_sync_disabled_by_env, describe_hub, hub_cache_dir, hub_config_path,
    hub_filters, hub_schemas, hub_searches, hub_side_dir, namespaced, Hub, HubConfig, Side,
    SyncReport, AUTO_SYNC_TTL, OFFICIAL_HUB_NAME,
};
use log_scouter::json::{read_json_bytes, write_json, Json};
use log_scouter::packs::SchemaFile;
use log_scouter::repo::{parse_repo, repo_is_official, Forge, RepoRef, OFFICIAL_HUB_REPO};
use log_scouter::search::SearchFile;
use log_scouter::sync::{
    add_and_sync, hub_entry_target, refused_size, refused_status, sync_attempts, sync_hub,
    sync_named, token_for, token_variable, unpack_hub, Attempt, Fetched, HubFile,
    SyncOutcome,
};

fn hub(name: &str, url: &str) -> Hub {
    Hub {
        name: name.to_string(),
        url: url.to_string(),
        branch: None,
        enabled: true,
        last_synced: None,
        official: false,
        forge: None,
    }
}

fn github(path: &str) -> RepoRef {
    RepoRef {
        scheme: "https".into(),
        host: "github.com".into(),
        path: path.into(),
        branch: None,
        forge: Some(Forge::GitHub),
    }
}

/// Now, and a stamp that many hours before it.
fn hours_ago(hours: i64) -> (Moment, String) {
    let now = chrono::Utc::now();
    let moment = Moment {
        seconds: now.timestamp(),
        nanos: now.timestamp_subsec_nanos(),
    };
    (moment, (now - chrono::Duration::hours(hours)).to_rfc3339())
}

#[test]
fn parses_the_shorthand_and_url_forms_of_a_repo() {
    let expected = github("acme/log-scouter-hub");
    for input in [
        "acme/log-scouter-hub",
        "https://github.com/acme/log-scouter-hub",
        "https://github.com/acme/log-scouter-hub.git",
        "https://github.com/acme/log-scouter-hub/",
        "github.com/acme/log-scouter-hub",
        "git@github.com:acme/log-scouter-hub.git",
        "ssh://git@github.com/acme/log-scouter-hub.git",
    ] {
        assert_eq!(parse_repo(input).unwrap(), expected, "parsing {input}");
    }
}

#[test]
fn a_tree_url_pins_the_branch_it_names() {
    let parsed = parse_repo("https://github.com/acme/hub/tree/stable").unwrap();
    assert_eq!(parsed.branch.as_deref(), Some("stable"));
    assert_eq!(
        parsed.tarball_url(Forge::GitHub, parsed.branch.as_deref()),
        "https://codeload.github.com/acme/hub/tar.gz/refs/heads/stable"
    );
}

#[test]
fn no_branch_tracks_the_default_branch() {
    let parsed = parse_repo("acme/hub").unwrap();
    assert_eq!(
        parsed.tarball_url(Forge::GitHub, None),
        "https://codeload.github.com/acme/hub/tar.gz/HEAD"
    );
    let self_hosted = parse_repo("http://git.example.com/acme/hub").unwrap();
    assert_eq!(
        self_hosted.tarball_url(Forge::GitLab, None),
        "http://git.example.com/acme/hub/-/archive/HEAD/hub-HEAD.tar.gz"
    );
    assert_eq!(
        self_hosted.tarball_url(Forge::Gitea, None),
        "http://git.example.com/acme/hub/archive/HEAD.tar.gz"
    );
}

#[test]
fn a_self_hosted_url_keeps_its_host_and_scheme() {
    let parsed =
        parse_repo("http://tec-l-1203160.labs.microstrategy.com/qhu/mstr-log-scouter-hub.git")
            .unwrap();
    assert_eq!(parsed.scheme, "http");
    assert_eq!(parsed.host, "tec-l-1203160.labs.microstrategy.com");
    assert_eq!(parsed.path, "qhu/mstr-log-scouter-hub");
    assert_eq!(parsed.repo(), "mstr-log-scouter-hub");
    assert_eq!(parsed.default_hub_name(), "mstr-log-scouter-hub");
    assert_eq!(
        parsed.forge, None,
        "an unknown host is identified by asking it"
    );
    assert_eq!(
        parsed.candidates(),
        vec![Forge::GitLab, Forge::Gitea]
    );
    assert_eq!(
        parsed.tarball_url(Forge::GitLab, None),
        "http://tec-l-1203160.labs.microstrategy.com/qhu/mstr-log-scouter-hub\
         /-/archive/HEAD/mstr-log-scouter-hub-HEAD.tar.gz"
    );
}

#[test]
fn a_gitlab_group_path_survives_intact() {
    let parsed = parse_repo("https://gitlab.example.com/team/sub/hub").unwrap();
    assert_eq!(parsed.path, "team/sub/hub");
    assert_eq!(parsed.repo(), "hub");
    assert_eq!(
        parsed.tarball_url(Forge::GitLab, Some("main")),
        "https://gitlab.example.com/team/sub/hub/-/archive/main/hub-main.tar.gz"
    );
}

#[test]
fn a_gitlab_tree_url_pins_its_branch() {
    let parsed = parse_repo("https://gitlab.example.com/team/hub/-/tree/stable").unwrap();
    assert_eq!(parsed.path, "team/hub");
    assert_eq!(parsed.branch.as_deref(), Some("stable"));
}

#[test]
fn an_ssh_url_becomes_an_https_fetch() {
    let parsed = parse_repo("ssh://git@git.example.com:22222/qhu/hub.git").unwrap();
    assert_eq!(parsed.scheme, "https");
    assert_eq!(
        parsed.host, "git.example.com",
        "the port is not part of the host"
    );
    assert_eq!(parsed.path, "qhu/hub");
}

#[test]
fn tokens_are_scoped_to_their_forge() {
    for (forge, expected_var, expected_header) in [
        (Forge::GitHub, "GITHUB_TOKEN", "Authorization"),
        (Forge::GitLab, "GITLAB_TOKEN", "PRIVATE-TOKEN"),
        (Forge::Gitea, "GITEA_TOKEN", "Authorization"),
    ] {
        assert_eq!(token_variable(forge), expected_var);
        let (header, value) = token_for(forge, Some("t0ken"), None).unwrap();
        assert_eq!(
            header, expected_header,
            "{expected_var} goes in {expected_header}"
        );
        assert!(value.ends_with("t0ken"));
        assert_eq!(token_for(forge, None, None), None);
        assert_eq!(token_for(forge, Some("  "), Some("shared")), None);
        assert!(token_for(forge, None, Some("shared")).is_some());
    }
    assert_ne!(Forge::GitLab.label(), Forge::GitHub.label());
}

#[test]
fn rejects_malformed_repos() {
    for input in ["", "acme", "https://github.com/", "https://gitlab.com/acme"] {
        assert!(parse_repo(input).is_err(), "should reject {input:?}");
    }
}

#[test]
fn any_git_host_is_accepted() {
    for input in [
        "https://gitlab.com/acme/hub",
        "http://gitlab.internal/acme/hub",
        "https://gitea.example.com/acme/hub",
        "git@gitlab.example.com:acme/hub.git",
    ] {
        let parsed = parse_repo(input).unwrap_or_else(|error| panic!("{input}: {error}"));
        assert_ne!(parsed.host, "github.com", "{input} keeps its own host");
        assert_eq!(parsed.path, "acme/hub", "{input}");
    }
}

#[test]
fn adding_a_name_that_is_taken_is_refused() {
    let mut config = HubConfig::default();
    config.add(hub("acme", "acme/hub")).unwrap();
    let error = config.add(hub("acme", "other/hub")).unwrap_err();
    assert!(error.contains("already exists"), "{error}");
    assert_eq!(config.hubs.len(), 1);
    assert_eq!(config.hubs[0].url, "acme/hub");
}

#[test]
fn remove_returns_the_hub_and_forgets_it() {
    let mut config = HubConfig::default();
    config.add(hub("acme", "acme/hub")).unwrap();
    config.add(hub("ops", "ops/hub")).unwrap();
    assert_eq!(config.remove("acme").unwrap().url, "acme/hub");
    assert!(config.remove("acme").is_none());
    assert_eq!(config.hubs.len(), 1);
}

#[test]
fn a_disabled_hub_contributes_nothing() {
    let mut config = HubConfig::default();
    config.add(hub("acme", "acme/hub")).unwrap();
    config.add(hub("ops", "ops/hub")).unwrap();
    config.get_mut("acme").unwrap().enabled = false;
    let active: Vec<_> = config
        .active()
        .into_iter()
        .map(|hub| hub.name.as_str())
        .collect();
    assert_eq!(active, ["ops"]);
}

#[test]
fn tar_entries_map_to_the_known_folders_only() {
    assert_eq!(
        hub_entry_target("hub-main/schemas/spring.json"),
        Some(("schemas", "spring.json".to_string()))
    );
    assert_eq!(
        hub_entry_target("hub-main/filters/noise.JSON"),
        Some(("filters", "noise.JSON".to_string()))
    );
    assert_eq!(
        hub_entry_target("hub-main/searches/errors.json"),
        Some(("searches", "errors.json".to_string()))
    );

    for skipped in [
        "hub-main/README.md",
        "hub-main/schemas/notes.md",
        "hub-main/docs/schemas/spring.json",
        "hub-main/schemas/nested/spring.json",
        "hub-main/.github/workflows/ci.yml",
        "hub-main/schemas/.hidden.json",
        "hub-main/schemas",
    ] {
        assert_eq!(hub_entry_target(skipped), None, "should skip {skipped}");
    }
}

#[test]
fn tar_entries_cannot_escape_the_cache() {
    for hostile in [
        "hub-main/schemas/../../../../etc/passwd.json",
        "../../etc/passwd.json",
        "/etc/passwd.json",
        "hub-main/../filters/evil.json",
    ] {
        assert_eq!(hub_entry_target(hostile), None, "should refuse {hostile}");
    }
}

/// A tarball shaped like a forge's: every path under one wrapper folder.
fn tarball(entries: &[(&str, &str)]) -> Vec<u8> {
    let mut builder = tar::Builder::new(Vec::new());
    for (path, body) in entries {
        let mut header = tar::Header::new_gnu();
        header.set_size(body.len() as u64);
        header.set_mode(0o644);
        header.set_cksum();
        builder
            .append_data(&mut header, path, body.as_bytes())
            .unwrap();
    }
    let tar = builder.into_inner().unwrap();

    let mut encoder = flate2::write::GzEncoder::new(Vec::new(), flate2::Compression::default());
    std::io::Write::write_all(&mut encoder, &tar).unwrap();
    encoder.finish().unwrap()
}

fn schema_item(name: &str) -> SchemaFile {
    SchemaFile {
        name: name.to_string(),
        description: "from a hub".to_string(),
        schema: Extractor::with_timestamp_format(
            name,
            "[<timestamp>] <level> <message>",
            "%Y-%m-%d %H:%M:%S",
        )
        .unwrap(),
    }
}

fn schema_json(name: &str) -> String {
    let schema = Json::empty()
        .with("name", Json::text(name))
        .with("format", Json::text("[<timestamp>] <level> <message>"))
        .with("timestamp_format", Json::text("%Y-%m-%d %H:%M:%S"));
    let file = Json::empty()
        .with("name", Json::text(name))
        .with("description", Json::text("from a hub"))
        .with("schema", schema);
    write_json(&file)
}

fn read(file: &HubFile) -> Json {
    read_json_bytes(&file.body).unwrap()
}

fn said(json: &Json, key: &str) -> String {
    json.get_str(key).unwrap_or_default().to_string()
}

/// The schemas of an unpacked hub, under the hub's namespace.
fn schemas_in(hub: &Hub, files: &[HubFile]) -> Vec<SchemaFile> {
    let loaded = files
        .iter()
        .filter(|file| file.folder == "schemas")
        .map(|file| {
            let json = read(file);
            let schema = json.get("schema").unwrap();
            SchemaFile {
                name: said(&json, "name"),
                description: said(&json, "description"),
                schema: Extractor::with_timestamp_format(
                    &said(schema, "name"),
                    &said(schema, "format"),
                    &said(schema, "timestamp_format"),
                )
                .unwrap(),
            }
        })
        .collect();
    hub_schemas(hub, &loaded)
}

fn filters_in(hub: &Hub, files: &[HubFile]) -> Vec<FilterFile> {
    let loaded = files
        .iter()
        .filter(|file| file.folder == "filters")
        .map(|file| {
            let json = read(file);
            let rule = json.get("filter").unwrap();
            FilterFile {
                name: said(&json, "name"),
                description: said(&json, "description"),
                filter: FilterRule::new(
                    &said(rule, "field"),
                    &said(rule, "op"),
                    &said(rule, "value"),
                    &said(rule, "action"),
                ),
            }
        })
        .collect();
    hub_filters(hub, &loaded)
}

fn searches_in(hub: &Hub, files: &[HubFile]) -> Vec<SearchFile> {
    let loaded = files
        .iter()
        .filter(|file| file.folder == "searches")
        .map(|file| {
            let json = read(file);
            SearchFile {
                name: said(&json, "name"),
                description: said(&json, "description"),
                query: said(&json, "query"),
            }
        })
        .collect();
    hub_searches(hub, &loaded)
}

#[test]
fn unpacking_a_repo_tarball_yields_a_namespaced_library() {
    let archive = tarball(&[
        ("hub-main/README.md", "# not a schema"),
        ("hub-main/schemas/spring.json", &schema_json("Spring-Boot")),
        (
            "hub-main/filters/noise.json",
            r#"{"name":"noise","description":"drop trace",
                    "filter":{"field":"level","op":"equals","value":"Trace","action":"exclude"}}"#,
        ),
        (
            "hub-main/searches/errors.json",
            r#"{"name":"errors","description":"all errors","query":"level=Error"}"#,
        ),
    ]);

    let (files, report) = unpack_hub(&archive).unwrap();
    assert_eq!(
        report,
        SyncReport {
            schemas: 1,
            filters: 1,
            searches: 1
        }
    );
    // The wrapper directory is stripped and the README ignored.
    let places: Vec<(&str, &str)> = files
        .iter()
        .map(|file| (file.folder, file.name.as_str()))
        .collect();
    assert_eq!(
        places,
        [
            ("schemas", "spring.json"),
            ("filters", "noise.json"),
            ("searches", "errors.json")
        ]
    );

    let acme = hub("acme", "acme/hub");
    let schemas = schemas_in(&acme, &files);
    assert_eq!(schemas.len(), 1);
    assert_eq!(schemas[0].name, "acme/Spring-Boot");
    // The schema's own name is namespaced too, since that is what detection matches on.
    assert_eq!(schemas[0].schema.name, "acme/Spring-Boot");

    let filters = filters_in(&acme, &files);
    assert_eq!(filters[0].name, "acme/noise");
    assert_eq!(filters[0].filter.value, "Trace");

    let searches = searches_in(&acme, &files);
    assert_eq!(searches[0].name, "acme/errors");
    assert_eq!(searches[0].query, "level=Error");
}

#[test]
fn two_hubs_can_ship_the_same_name_without_collision() {
    let mut names = Vec::new();
    for name in ["acme", "ops"] {
        let archive = tarball(&[("hub-main/schemas/gw.json", &schema_json("Gateway-Access"))]);
        let (files, _) = unpack_hub(&archive).unwrap();
        for file in schemas_in(&hub(name, "x/y"), &files) {
            names.push(file.schema.name);
        }
    }
    assert_eq!(names, ["acme/Gateway-Access", "ops/Gateway-Access"]);
}

#[test]
fn re_syncing_replaces_the_previous_snapshot() {
    let acme = hub("acme", "acme/hub");
    let (first, _) = unpack_hub(&tarball(&[
        ("hub-main/schemas/a.json", &schema_json("A")),
        ("hub-main/schemas/gone.json", &schema_json("Gone")),
    ]))
    .unwrap();
    assert_eq!(schemas_in(&acme, &first).len(), 2);

    let (second, _) =
        unpack_hub(&tarball(&[("hub-main/schemas/a.json", &schema_json("A"))])).unwrap();
    let names: Vec<String> = schemas_in(&acme, &second)
        .into_iter()
        .map(|file| file.name)
        .collect();
    assert_eq!(names, ["acme/A"]);
}

#[test]
fn a_repo_that_is_not_a_hub_is_refused_and_keeps_the_old_snapshot() {
    let (old, _) = unpack_hub(&tarball(&[("hub-main/schemas/a.json", &schema_json("A"))])).unwrap();

    let error = unpack_hub(&tarball(&[("hub-main/README.md", "hello")]))
        .err()
        .unwrap();
    assert!(error.contains("is it a hub?"), "{error}");
    assert_eq!(schemas_in(&hub("acme", "acme/hub"), &old).len(), 1);
    assert!(unpack_hub(b"no tarball at all").is_err());
}

#[test]
fn an_unsynced_hub_contributes_nothing() {
    let unsynced = hub("never-synced-hub-xyz", "acme/hub");
    assert!(hub_schemas(&unsynced, &Vec::new()).is_empty());
    assert!(hub_filters(&unsynced, &Vec::new()).is_empty());
    assert!(hub_searches(&unsynced, &Vec::new()).is_empty());
}

#[test]
fn items_are_namespaced_under_their_hub() {
    assert_eq!(namespaced("acme", "Spring-Boot"), "acme/Spring-Boot");
}

#[test]
fn the_official_hub_keeps_bare_names_and_others_do_not() {
    let (files, _) = unpack_hub(&tarball(&[(
        "hub-main/schemas/sb.json",
        &schema_json("Spring Boot"),
    )]))
    .unwrap();

    let mut official = hub(OFFICIAL_HUB_NAME, OFFICIAL_HUB_REPO);
    official.official = true;
    assert_eq!(official.namespace(), None);
    let names: Vec<String> = schemas_in(&official, &files)
        .into_iter()
        .map(|file| file.schema.name)
        .collect();
    assert_eq!(names, ["Spring Boot"]);

    let third_party = hub("acme", "acme/hub");
    assert_eq!(third_party.namespace(), Some("acme"));
    let names: Vec<String> = schemas_in(&third_party, &files)
        .into_iter()
        .map(|file| file.schema.name)
        .collect();
    assert_eq!(names, ["acme/Spring Boot"]);
}

#[test]
fn a_fresh_config_is_seeded_with_the_official_hub_once() {
    let mut config = HubConfig::default();
    assert!(config.ensure_official());
    assert_eq!(config.hubs.len(), 1);
    let official = &config.hubs[0];
    assert!(official.official);
    assert_eq!(official.name, OFFICIAL_HUB_NAME);
    assert_eq!(official.url, OFFICIAL_HUB_REPO);

    assert!(!config.ensure_official());
    assert_eq!(config.hubs.len(), 1);
}

#[test]
fn removing_the_official_hub_sticks_until_it_is_added_back() {
    let mut config = HubConfig::default();
    config.ensure_official();
    config.remove(OFFICIAL_HUB_NAME).unwrap();
    assert!(config.official_removed);

    assert!(!config.ensure_official());
    assert!(config.hubs.is_empty());

    config
        .add(hub(
            OFFICIAL_HUB_NAME,
            "https://github.com/mangosteen-lab/log-scouter-hub",
        ))
        .unwrap();
    assert!(!config.official_removed);
    assert!(!config.ensure_official());
    assert_eq!(config.hubs.len(), 1);
}

#[test]
fn a_user_hub_named_official_blocks_the_seed() {
    let mut config = HubConfig::default();
    config
        .add(hub(OFFICIAL_HUB_NAME, "acme/their-hub"))
        .unwrap();
    assert!(!config.ensure_official());
    assert_eq!(config.hubs.len(), 1);
    assert_eq!(config.hubs[0].url, "acme/their-hub");
}

#[test]
fn the_official_repo_is_recognised_however_it_is_spelled() {
    for url in [
        "mangosteen-lab/log-scouter-hub",
        "https://github.com/mangosteen-lab/log-scouter-hub",
        "git@github.com:mangosteen-lab/log-scouter-hub.git",
        "https://github.com/Mangosteen-Lab/Log-Scouter-Hub",
    ] {
        assert!(repo_is_official(url), "{url} is the official repo");
    }
    for url in ["acme/log-scouter-hub", "mangosteen-lab/log-scouter", "junk"] {
        assert!(!repo_is_official(url), "{url} is not the official repo");
    }
}

#[test]
fn only_stale_enabled_hubs_are_due_for_a_background_sync() {
    let (now, recent) = hours_ago(2);
    let (_, old) = hours_ago(30);

    let mut config = HubConfig::default();
    config.add(hub("never", "a/b")).unwrap();
    config.add(hub("fresh", "c/d")).unwrap();
    config.add(hub("stale", "e/f")).unwrap();
    config.add(hub("off", "g/h")).unwrap();
    config.get_mut("fresh").unwrap().last_synced = Some(recent);
    config.get_mut("stale").unwrap().last_synced = Some(old.clone());
    config.get_mut("off").unwrap().last_synced = Some(old);
    config.get_mut("off").unwrap().enabled = false;

    let due: Vec<String> = config
        .due_for_auto_sync(now)
        .into_iter()
        .map(|hub| hub.name)
        .collect();
    assert_eq!(due, ["never", "stale"]);

    config.auto_sync = false;
    assert!(config.due_for_auto_sync(now).is_empty());
}

#[test]
fn an_unreadable_timestamp_counts_as_stale() {
    let mut hub = hub("acme", "a/b");
    let (now, _) = hours_ago(0);
    hub.last_synced = Some("last tuesday".to_string());
    assert!(hub.is_stale(AUTO_SYNC_TTL, now));
}

// ---- places, texts and outcomes ---------------------------------------------------

#[test]
fn a_hub_is_described_on_one_line() {
    let mut acme = hub("acme", "acme/hub");
    let holds = SyncReport {
        schemas: 2,
        filters: 1,
        searches: 0,
    };
    assert_eq!(
        describe_hub(&acme, &holds),
        "acme [acme/hub] — 2 schema(s), 1 filter(s), 0 search(es), never synced"
    );
    acme.last_synced = Some("2026-07-14T07:14:40Z".to_string());
    acme.official = true;
    assert_eq!(
        describe_hub(&acme, &holds),
        "acme (official) [acme/hub] — 2 schema(s), 1 filter(s), 0 search(es), synced 2026-07-14"
    );
    acme.enabled = false;
    assert!(describe_hub(&acme, &holds).ends_with("disabled"));
    assert_eq!(holds.total(), 3);
    assert_eq!(
        hub_added_text(&hub("a", "b/c"), &holds, &holds),
        "Added hub 'a': 2 schema(s), 1 filter(s), 0 search(es)\n  a [b/c] — 2 schema(s), 1 filter(s), 0 search(es), never synced"
    );
}

#[test]
fn hub_places_are_under_home() {
    assert_eq!(
        hub_config_path(Some("/home/u")).as_deref(),
        Some("/home/u/.log-scouter/hubs.json")
    );
    assert_eq!(
        hub_cache_dir(Some("/home/u"), "acme").as_deref(),
        Some("/home/u/.log-scouter/hubs/acme")
    );
    assert_eq!(hub_config_path(None), None);
}

#[test]
fn statuses_and_sizes_are_refused_in_words() {
    assert_eq!(refused_status("u", 200, "200 OK"), None);
    assert!(refused_status("u", 404, "404 Not Found")
        .unwrap()
        .starts_with("not found: u"));
    assert!(refused_status("u", 403, "403 Forbidden")
        .unwrap()
        .starts_with("access denied (403 Forbidden)"));
    assert_eq!(
        refused_status("u", 500, "500 Oops").as_deref(),
        Some("fetch failed: 500 Oops")
    );
    assert_eq!(refused_size(10), None);
    assert!(refused_size(u64::MAX).is_some());
}

#[test]
fn a_known_forge_is_the_only_one_tried() {
    let mut known = hub("acme", "http://git.example.com/acme/hub");
    assert_eq!(sync_attempts(&known).unwrap().len(), 2);
    known.forge = Some(Forge::Gitea);
    let attempts = sync_attempts(&known).unwrap();
    assert_eq!(attempts.len(), 1);
    assert_eq!(
        attempts[0].url,
        "http://git.example.com/acme/hub/archive/HEAD.tar.gz"
    );
    assert!(sync_attempts(&hub("bad", "acme")).is_err());
}

fn three() -> SyncReport {
    SyncReport {
        schemas: 1,
        filters: 1,
        searches: 1,
    }
}

#[test]
fn the_forge_that_answers_is_remembered() {
    let mut fresh = hub("acme", "http://git.example.com/acme/hub");
    let report = sync_hub(&mut fresh, true, |attempt: &Attempt| {
        if attempt.forge == Forge::Gitea {
            Fetched::Unpacked(three(), "2026-07-14T07:14:40Z".to_string())
        } else {
            Fetched::Failed("no".to_string())
        }
    })
    .unwrap();
    assert_eq!(report, three());
    assert_eq!(fresh.forge, Some(Forge::Gitea));
    assert_eq!(fresh.last_synced.as_deref(), Some("2026-07-14T07:14:40Z"));

    let mut lost = hub("acme", "http://git.example.com/acme/hub");
    let error = sync_hub(&mut lost, true, |attempt: &Attempt| {
        Fetched::Failed(attempt.url.clone())
    })
    .unwrap_err();
    assert!(error.contains("/-/archive/"), "the first error is kept: {error}");
    let homeless = sync_hub(&mut lost, false, |_: &Attempt| panic!("nowhere to put it"));
    assert_eq!(
        homeless.unwrap_err(),
        "no home directory: cannot cache a hub"
    );
    assert_eq!(lost.forge, None);
    assert_eq!(lost.last_synced, None);
}

#[test]
fn a_hub_that_will_not_fetch_is_not_added() {
    let mut config = HubConfig::default();
    let error = add_and_sync(&mut config, "acme/hub", None, |hub: Hub| SyncOutcome {
        hub,
        result: Err("offline".to_string()),
    })
    .unwrap_err();
    assert_eq!(error, "hub 'hub' not added: offline");
    assert!(config.hubs.is_empty());

    let (added, report) = add_and_sync(
        &mut config,
        "acme/hub",
        Some("mine".to_string()),
        |mut hub: Hub| {
            hub.last_synced = Some("now".to_string());
            SyncOutcome {
                hub,
                result: Ok(three()),
            }
        },
    )
    .unwrap();
    assert_eq!(added.name, "mine");
    assert_eq!(report, three());
    assert_eq!(config.hubs[0].last_synced.as_deref(), Some("now"));

    let again = add_and_sync(
        &mut config,
        "acme/hub",
        Some("mine".to_string()),
        |hub: Hub| SyncOutcome {
            hub,
            result: Ok(three()),
        },
    );
    assert_eq!(again.unwrap_err(), "hub 'mine' already exists");
}

#[test]
fn one_unreachable_hub_does_not_stop_the_others() {
    let mut config = HubConfig::default();
    config.add(hub("a", "a/b")).unwrap();
    config.add(hub("b", "c/d")).unwrap();
    let sync = |mut hub: Hub| {
        if hub.name == "a" {
            SyncOutcome {
                hub,
                result: Err("down".to_string()),
            }
        } else {
            hub.last_synced = Some("now".to_string());
            SyncOutcome {
                hub,
                result: Ok(three()),
            }
        }
    };
    let summary = sync_named(&mut config, None, sync).unwrap();
    assert_eq!(summary.synced, 1);
    assert_eq!(summary.items, 3);
    assert_eq!(summary.failures, ["a: down"]);
    assert_eq!(config.hubs[1].last_synced.as_deref(), Some("now"));
    assert!(!nothing_synced(&summary));
    assert_eq!(sync_text(&summary), "Synced 1 hub(s), 3 item(s).");

    let only = sync_named(&mut config, Some("a"), sync).unwrap();
    assert!(nothing_synced(&only));
    assert_eq!(
        sync_named(&mut config, Some("zzz"), sync).unwrap_err(),
        "no hub 'zzz'"
    );
    let mut none = HubConfig::default();
    assert!(sync_named(&mut none, None, sync)
        .unwrap_err()
        .starts_with("no hubs configured"));
}

#[test]
fn commands_change_the_configuration_and_say_so() {
    let mut config = HubConfig::default();
    config.add(hub("a", "a/b")).unwrap();
    assert_eq!(
        set_hub_enabled(&mut config, "a", false).unwrap(),
        "Hub 'a' disabled."
    );
    assert!(!config.hubs[0].enabled);
    assert_eq!(
        set_hub_enabled(&mut config, "x", true).unwrap_err(),
        "no hub 'x'"
    );
    assert!(set_auto_sync(&mut config, true, true).contains("still wins"));
    assert!(set_auto_sync(&mut config, false, false).starts_with("Auto-sync off"));
    assert!(!config.auto_sync);
    let text = hub_listing(&config, &vec![three()], false, false, Some("/h/hubs.json"));
    assert_eq!(
        text,
        "a [a/b] — 1 schema(s), 1 filter(s), 1 search(es), disabled\n\nAuto-sync: off — hubs refresh only when you sync them.\nConfigured in /h/hubs.json"
    );
    assert_eq!(remove_hub(&mut config, "a").unwrap(), "Removed hub 'a'.");
    assert_eq!(remove_hub(&mut config, "a").unwrap_err(), "no hub 'a'");
    assert!(hub_listing(&config, &Vec::new(), true, false, None)
        .starts_with("Configured the official hub"));
}

#[test]
fn the_environment_can_forbid_the_sync() {
    assert!(auto_sync_disabled_by_env(Some("1")));
    assert!(!auto_sync_disabled_by_env(Some("  ")));
    assert!(!auto_sync_disabled_by_env(None));
}

#[test]
fn only_enabled_hubs_contribute_schemas_in_their_order() {
    let mut asleep = hub("asleep", "x/asleep");
    asleep.enabled = false;
    let config = HubConfig {
        hubs: vec![hub("ops", "x/ops"), asleep, hub("acme", "x/acme")],
        auto_sync: true,
        official_removed: true,
    };
    let loaded = vec![
        vec![schema_item("a"), schema_item("b")],
        vec![schema_item("c")],
        vec![schema_item("a")],
    ];
    let names: Vec<String> = all_hub_schemas(&config, &loaded)
        .into_iter()
        .map(|file| file.name)
        .collect();
    assert_eq!(names, ["ops/a", "ops/b", "acme/a"]);
}

#[test]
fn every_hub_has_a_folder_of_its_own() {
    let place = |name: &str| hub_cache_dir(Some("/h"), name).unwrap();
    assert_eq!(place("acme.tools-2"), "/h/.log-scouter/hubs/acme.tools-2");
    assert_eq!(place("a b"), "/h/.log-scouter/hubs/a%000020b");
    assert_eq!(place("a-b"), "/h/.log-scouter/hubs/a-b");
    assert_eq!(place(".."), "/h/.log-scouter/hubs/%00002e.");
    assert_eq!(place("a/b"), "/h/.log-scouter/hubs/a%00002fb");
    assert_eq!(place("\u{10ffff}"), "/h/.log-scouter/hubs/%10ffff");
    assert_eq!(place(""), "/h/.log-scouter/hubs/%");
    assert_eq!(
        hub_side_dir(Some("/h"), "acme", Side::Incoming).unwrap(),
        "/h/.log-scouter/hubs/acme%incoming"
    );
    assert_eq!(
        hub_side_dir(Some("/h"), "acme", Side::Outgoing).unwrap(),
        "/h/.log-scouter/hubs/acme%outgoing"
    );
    assert_eq!(hub_cache_dir(None, "acme"), None);
}

#[test]
fn an_add_that_fails_changes_nothing() {
    let mut config = HubConfig::default();
    let failing = |hub: Hub| SyncOutcome {
        hub,
        result: Err("offline".to_string()),
    };
    let error = add_and_sync(&mut config, OFFICIAL_HUB_REPO, None, failing)
        .err()
        .unwrap();
    assert_eq!(
        error,
        format!("hub '{OFFICIAL_HUB_NAME}' not added: offline")
    );
    assert!(config.hubs.is_empty());
    assert!(config.auto_sync);
    assert!(!config.official_removed);
    assert!(config.ensure_official());
}
