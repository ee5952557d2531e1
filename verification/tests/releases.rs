use log_scouter::cli::{
    confirmed, named_files, uninstall_report, uninstall_warning, upgrade_check_text, upgraded_text,
    version_text,
};
use log_scouter::clock::Moment;
use log_scouter::json::read_json;
use log_scouter::release::{
    asset_name, available_update, extract_binary, is_binary_entry, is_newer, latest_version,
    parts, plan_upgrade, refused_answer, refused_download, release_token, update_cache_path,
    update_notice, user_library_dir, version_in, Uninstalled, UpdateCache, UpgradePlan, Upgraded,
    CURRENT_VERSION, UPDATE_CHECK_TTL,
};

#[test]
fn newer_versions_are_recognised() {
    assert!(is_newer("0.0.17", "0.0.16"));
    assert!(is_newer("0.1.0", "0.0.99"));
    assert!(is_newer("1.0.0", "0.9.9"));
    assert!(is_newer("v0.0.17", "0.0.16"));

    assert!(!is_newer("0.0.16", "0.0.16"));
    assert!(!is_newer("0.0.15", "0.0.16"));
    assert!(!is_newer("0.0.9", "0.0.10"), "compare numbers, not strings");
}

#[test]
fn unreadable_versions_are_not_upgrades() {
    for junk in ["", "latest", "not-a-version", "v", "..."] {
        assert!(!is_newer(junk, "0.0.16"), "{junk:?} is not an upgrade");
    }
    assert!(!is_newer("0.0.16-rc1", "0.0.16"));
}

fn hours_ago(hours: i64) -> (Moment, String) {
    let now = chrono::Utc::now();
    let moment = Moment {
        seconds: now.timestamp(),
        nanos: now.timestamp_subsec_nanos(),
    };
    (moment, (now - chrono::Duration::hours(hours)).to_rfc3339())
}

fn cache(checked_at: &str) -> UpdateCache {
    UpdateCache {
        latest: "0.0.17".into(),
        checked_at: checked_at.into(),
    }
}

#[test]
fn the_cache_goes_stale_after_the_ttl() {
    let (now, recent) = hours_ago(2);
    let (_, old) = hours_ago(30);
    assert!(cache(&recent).is_fresh(now, UPDATE_CHECK_TTL));
    assert!(!cache(&old).is_fresh(now, UPDATE_CHECK_TTL));
    assert!(!cache("last tuesday").is_fresh(now, UPDATE_CHECK_TTL));
}

#[test]
fn the_asset_matches_what_the_release_workflow_builds() {
    for (os, arch) in [
        ("linux", "x86_64"),
        ("macos", "aarch64"),
        ("macos", "x86_64"),
        ("windows", "x86_64"),
    ] {
        let asset = asset_name(os, arch).expect("a published asset for this platform");
        assert!(asset.starts_with("log-scouter-"));
        assert!(asset.ends_with(".tar.gz") || asset.ends_with(".zip"));
    }
    assert_eq!(asset_name("plan9", "x86_64"), None);
}

#[test]
fn the_binary_is_found_wherever_the_archive_puts_it() {
    assert!(is_binary_entry("logscout"));
    assert!(is_binary_entry("log-scouter-x86_64/logscout"));
    assert!(is_binary_entry("logscout.exe"));
    assert!(!is_binary_entry("README.md"));
    assert!(!is_binary_entry("logscout.txt"));
}

fn tarball(entries: &[(&str, &str)]) -> Vec<u8> {
    let mut builder = tar::Builder::new(Vec::new());
    for (path, body) in entries {
        let mut header = tar::Header::new_gnu();
        header.set_size(body.len() as u64);
        header.set_mode(0o755);
        header.set_cksum();
        builder
            .append_data(&mut header, path, body.as_bytes())
            .unwrap();
    }
    let mut encoder = flate2::write::GzEncoder::new(Vec::new(), flate2::Compression::default());
    std::io::Write::write_all(&mut encoder, &builder.into_inner().unwrap()).unwrap();
    encoder.finish().unwrap()
}

#[test]
fn a_release_tarball_yields_an_executable_binary() {
    let archive = tarball(&[
        ("log-scouter-x86_64/README.md", "not the binary"),
        ("log-scouter-x86_64/logscout", "#!/bin/sh\necho hi\n"),
    ]);
    let binary = extract_binary(
        &archive,
        "log-scouter-x86_64-unknown-linux-musl.tar.gz",
        false,
        "/tmp/logscout-new",
    )
    .unwrap();
    assert_eq!(binary, b"#!/bin/sh\necho hi\n".to_vec());
}

#[test]
fn an_archive_without_a_binary_is_refused() {
    let archive = tarball(&[("junk/README.md", "nothing useful")]);
    let error = extract_binary(&archive, "x.tar.gz", false, "/tmp/x").unwrap_err();
    assert!(error.contains("no logscout binary"), "{error}");
}

// ---- versions, archives and texts -------------------------------------------------

#[test]
fn bytes_that_are_no_archive_are_refused() {
    let error = extract_binary(b"junk", "x.tar.gz", false, "/tmp/x").unwrap_err();
    assert!(
        error.starts_with("corrupt archive: ") || error.starts_with("not a gzipped tarball: "),
        "{error}"
    );
    let error = extract_binary(b"junk", "x.zip", true, "/tmp/x").unwrap_err();
    assert!(error.starts_with("not a zip: "), "{error}");
    let error = extract_binary(b"junk", "x.zip", false, "/tmp/x").unwrap_err();
    assert_eq!(error, "zip release assets are only used on Windows");
}

fn zipped(entries: &[(&str, &str)]) -> Vec<u8> {
    let mut writer = zip::ZipWriter::new(std::io::Cursor::new(Vec::new()));
    for (path, body) in entries {
        writer
            .start_file(*path, zip::write::SimpleFileOptions::default())
            .unwrap();
        std::io::Write::write_all(&mut writer, body.as_bytes()).unwrap();
    }
    writer.finish().unwrap().into_inner()
}

#[test]
fn a_windows_zip_yields_the_binary() {
    let archive = zipped(&[("README.md", "no"), ("log-scouter/logscout.exe", "MZ")]);
    assert_eq!(
        extract_binary(&archive, "x.zip", true, "x").unwrap(),
        b"MZ".to_vec()
    );
    let empty = zipped(&[("README.md", "no")]);
    assert_eq!(
        extract_binary(&empty, "x.zip", true, "x").unwrap_err(),
        "no logscout.exe in the archive"
    );
}

#[test]
fn a_version_is_up_to_three_numbers() {
    assert_eq!(parts(" v1.20.3-rc4 "), [1, 20, 3]);
    assert_eq!(parts("1.x"), [1, 0]);
    assert_eq!(parts(""), [0]);
    assert!(!is_newer(CURRENT_VERSION, CURRENT_VERSION));
}

#[test]
fn the_latest_version_is_read_from_the_response() {
    assert_eq!(
        latest_version(b"{\"tag_name\":\"v0.0.30\"}").unwrap(),
        "0.0.30"
    );
    assert_eq!(
        latest_version(b"{}").unwrap_err(),
        "no tag_name in the release response"
    );
    assert!(latest_version(b"junk")
        .unwrap_err()
        .starts_with("bad response: "));
}

#[test]
fn the_update_check_asks_at_most_daily() {
    let (now, recent) = hours_ago(2);
    let (_, old) = hours_ago(30);
    let home = Some("/home/u");

    let fresh = cache(&recent);
    let (told, kept) = available_update(None, home, Some(&fresh), now, "s", "0.0.16", || {
        panic!("a fresh answer is not asked for again")
    });
    assert_eq!(told.as_deref(), Some("0.0.17"));
    assert_eq!(kept, None);

    let stale = cache(&old);
    let (told, kept) = available_update(None, home, Some(&stale), now, "s", "0.0.16", || {
        Ok("0.0.18".to_string())
    });
    assert_eq!(told.as_deref(), Some("0.0.18"));
    assert_eq!(
        kept,
        Some(UpdateCache {
            latest: "0.0.18".into(),
            checked_at: "s".into()
        })
    );

    let (told, kept) = available_update(None, home, None, now, "s", "0.0.16", || {
        Err("offline".to_string())
    });
    assert_eq!((told, kept), (None, None));

    for (opt_out, home) in [(Some("1"), Some("/home/u")), (None, None)] {
        let (told, kept) = available_update(opt_out, home, None, now, "s", "0.0.16", || {
            panic!("must not ask")
        });
        assert_eq!((told, kept), (None, None));
    }
}

#[test]
fn the_notice_names_both_versions() {
    assert_eq!(update_notice("0.0.1", None), None);
    assert_eq!(
        update_notice("0.0.1", Some("0.0.2")).unwrap(),
        "\nA new release of logscout is available: 0.0.1 -> 0.0.2\nhttps://github.com/mangosteen-lab/log-scouter/releases/tag/v0.0.2\nRun `logscout upgrade` to update."
    );
    assert_eq!(version_text(None), format!("logscout {CURRENT_VERSION}"));
    assert!(version_text(Some("\nnews")).ends_with("\n\nnews"));
}

#[test]
fn an_asked_version_may_be_a_downgrade() {
    let plan = plan_upgrade("0.0.22", Some("v0.0.1"), "linux", "x86_64", || {
        panic!("an explicit version is not asked for")
    })
    .unwrap();
    assert_eq!(
        plan,
        UpgradePlan::Install {
            version: "0.0.1".to_string(),
            asset: "log-scouter-x86_64-unknown-linux-musl.tar.gz",
            url: "https://github.com/mangosteen-lab/log-scouter/releases/download/v0.0.1/log-scouter-x86_64-unknown-linux-musl.tar.gz".to_string(),
        }
    );
    let same = plan_upgrade("0.0.22", None, "linux", "x86_64", || Ok("0.0.22".to_string()));
    assert_eq!(
        same.unwrap(),
        UpgradePlan::AlreadyCurrent("0.0.22".to_string())
    );
    let nowhere = plan_upgrade("0.0.22", None, "plan9", "mips", || Ok("9.0.0".to_string()));
    assert_eq!(
        nowhere.unwrap_err(),
        "no published binary for plan9-mips; build from source instead"
    );
    let offline = plan_upgrade("0.0.22", None, "linux", "x86_64", || Err("off".to_string()));
    assert_eq!(offline.unwrap_err(), "off");
}

#[test]
fn requests_are_refused_in_words() {
    assert_eq!(refused_answer("u", 204, "204"), None);
    assert_eq!(
        refused_answer("u", 404, "x").as_deref(),
        Some("not found: u")
    );
    assert!(refused_answer("u", 403, "x").unwrap().contains("rate limited"));
    assert_eq!(
        refused_answer("u", 500, "500 Oops").as_deref(),
        Some("fetch failed: 500 Oops")
    );
    assert_eq!(refused_download(64 * 1024 * 1024), None);
    assert!(refused_download(64 * 1024 * 1024 + 1).is_some());
    assert_eq!(release_token(Some("a"), Some("b")), Some("a"));
    assert_eq!(release_token(None, Some("b")), Some("b"));
    assert_eq!(release_token(Some(" "), Some("b")), None);
}

#[test]
fn release_places_are_under_home() {
    assert_eq!(
        update_cache_path(Some("/home/u")).as_deref(),
        Some("/home/u/.log-scouter/update.json")
    );
    assert_eq!(
        user_library_dir(Some("/home/u")).as_deref(),
        Some("/home/u/.log-scouter")
    );
    assert_eq!(user_library_dir(None), None);
}

#[test]
fn an_uninstall_is_confirmed_and_reported() {
    assert!(confirmed(" YES\n"));
    assert!(confirmed("y"));
    assert!(!confirmed(""));
    assert!(!confirmed("no"));
    assert!(uninstall_warning("/bin/logscout", true, Some("/h")).contains("also remove /h"));
    assert!(uninstall_warning("/bin/logscout", false, Some("/h")).contains("/h is kept"));
    let mut removed = Uninstalled::default();
    removed.binary = Some("/bin/logscout".to_string());
    assert_eq!(
        uninstall_report(&removed, false, Some("/h")),
        [
            "Removed /bin/logscout.",
            "Kept /h — remove it with `--purge`."
        ]
    );
    removed.library = Some("/h".to_string());
    assert_eq!(
        uninstall_report(&removed, true, None),
        ["Removed /bin/logscout.", "Removed /h."]
    );
}

#[test]
fn upgrades_are_told_in_words() {
    assert!(upgrade_check_text(Some("9.9.9")).contains("-> 9.9.9 available."));
    assert!(upgrade_check_text(None).ends_with("is the latest release."));
    assert_eq!(
        upgraded_text(&Upgraded::AlreadyCurrent("1".into())),
        "logscout 1 is already the latest release."
    );
    assert_eq!(
        upgraded_text(&Upgraded::Replaced {
            path: "/p".into(),
            version: "2".into()
        }),
        "Upgraded to logscout 2 at /p."
    );
    assert_eq!(
        named_files("/cwd", &["a.log".to_string(), "/x/b.log".to_string()]),
        ["/cwd/a.log", "/x/b.log"]
    );
}

#[test]
fn the_version_is_read_from_what_could_be_read() {
    assert_eq!(
        version_in(read_json("{\"tag_name\":\"vv1.2\"}")).unwrap(),
        "1.2"
    );
    assert_eq!(
        version_in(Err("cut off".to_string())).unwrap_err(),
        "bad response: cut off"
    );
}

#[test]
fn missing_parts_count_as_zero() {
    for junk in ["...", "latest", "v", "-+-"] {
        for current in ["0.0", "0", "", "0.0.0", "0.0.1"] {
            assert!(!is_newer(junk, current), "{junk:?} over {current:?}");
        }
    }
    assert!(!is_newer("1.0.0", "1"));
    assert!(!is_newer("1-rc1", "1"));
    assert!(is_newer("1.0.1", "1"));
    assert!(is_newer("1.1", "1.0.9"));
}
