//! What the commands do to the configuration, and what they say.

use crate::hub::{
    describe_hub, has_hub, hub_index, hub_line, hub_removed, report_text, Hub, HubConfig,
    SyncReport, NO_AUTO_SYNC_VAR,
};
use crate::paths::{join_path, joined};
use crate::release::{Uninstalled, Upgraded, CURRENT_VERSION};
use crate::repo::OFFICIAL_HUB_REPO;
use crate::sync::SyncSummary;
use crate::text::{
    decimal, decimal_text, lowercase, lowercase_of, opt_str, same_text, texts, trim, trimmed,
};
use vstd::prelude::*;

verus! {

// ---------------------------------------------------------------------------
// Hubs
// ---------------------------------------------------------------------------

/// What is said of a hub that was added.
pub fn hub_added_text(hub: &Hub, report: &SyncReport, holds: &SyncReport) -> (r: String)
    ensures
        r@ == "Added hub '"@ + hub.name@ + "': "@ + report_text(*report) + "\n  "@ + hub_line(
            hub@,
            *holds,
        ),
{
    "Added hub '".to_string().concat(hub.name.as_str()).concat("': ").concat(
        report.describe().as_str(),
    ).concat("\n  ").concat(describe_hub(hub, holds).as_str())
}

/// What is said where no hub has a name.
pub open spec fn no_such_hub(name: Seq<char>) -> Seq<char> {
    "no hub '"@ + name + "'"@
}

fn no_hub_text(name: &str) -> (r: String)
    ensures
        r@ == no_such_hub(name@),
{
    "no hub '".to_string().concat(name).concat("'")
}

/// Forget a hub, and say so.
pub fn remove_hub(config: &mut HubConfig, name: &str) -> (r: Result<String, String>)
    ensures
        match r {
            Ok(text) => {
                &&& text@ == "Removed hub '"@ + name@ + "'."@
                &&& hub_removed(
                    *old(config),
                    name@,
                    *final(config),
                    old(config).hubs@[hub_index(old(config).hubs@, name@, 0)],
                )
            },
            Err(e) => {
                &&& e@ == no_such_hub(name@)
                &&& !has_hub(old(config).hubs@, name@)
                &&& *final(config) == *old(config)
            },
        },
{
    match config.remove(name) {
        None => Err(no_hub_text(name)),
        Some(_) => Ok("Removed hub '".to_string().concat(name).concat("'.")),
    }
}

/// A hub that was let contribute, or kept from it.
pub open spec fn switched(hub: Hub, after: Hub, enabled: bool) -> bool {
    &&& after.enabled == enabled
    &&& after.name == hub.name
    &&& after.url == hub.url
    &&& after.branch == hub.branch
    &&& after.last_synced == hub.last_synced
    &&& after.official == hub.official
    &&& after.forge == hub.forge
}

/// Let a hub contribute its items, or keep it from that, and say so.
pub fn set_hub_enabled(config: &mut HubConfig, name: &str, enabled: bool) -> (r: Result<
    String,
    String,
>)
    ensures
        match r {
            Ok(text) => {
                let i = hub_index(old(config).hubs@, name@, 0);
                &&& has_hub(old(config).hubs@, name@)
                &&& text@ == "Hub '"@ + name@ + "' "@ + (if enabled {
                    "enabled"@
                } else {
                    "disabled"@
                }) + "."@
                &&& final(config).hubs@ == old(config).hubs@.update(i, final(config).hubs@[i])
                &&& switched(old(config).hubs@[i], final(config).hubs@[i], enabled)
                &&& final(config).auto_sync == old(config).auto_sync
                &&& final(config).official_removed == old(config).official_removed
            },
            Err(e) => {
                &&& e@ == no_such_hub(name@)
                &&& !has_hub(old(config).hubs@, name@)
                &&& *final(config) == *old(config)
            },
        },
{
    proof {
        lemma_hub_index(config.hubs@, name@, 0);
    }
    match config.get_mut(name) {
        None => Err(no_hub_text(name)),
        Some(hub) => {
            hub.enabled = enabled;
            let state = if enabled {
                "enabled"
            } else {
                "disabled"
            };
            Ok("Hub '".to_string().concat(name).concat("' ").concat(state).concat("."))
        },
    }
}

proof fn lemma_hub_index(hubs: Seq<Hub>, name: Seq<char>, i: int)
    requires
        0 <= i <= hubs.len(),
    ensures
        i <= hub_index(hubs, name, i) <= hubs.len(),
    decreases hubs.len() - i,
{
    if i < hubs.len() && hubs[i].name@ != name {
        lemma_hub_index(hubs, name, i + 1);
    }
}

/// What is said of turning the start-up sync on or off.
pub open spec fn auto_sync_answer(on: bool, forbidden: bool) -> Seq<char> {
    if on && forbidden {
        "Auto-sync on, but "@ + NO_AUTO_SYNC_VAR@
            + " is set in the environment and still wins."@
    } else if on {
        "Auto-sync on: stale hubs refresh on start, at most daily."@
    } else {
        "Auto-sync off: hubs refresh only when you run `logscout hub sync`."@
    }
}

/// Turn the start-up sync on or off, and say so; `forbidden` tells whether the environment
/// stands against it.
pub fn set_auto_sync(config: &mut HubConfig, on: bool, forbidden: bool) -> (r: String)
    ensures
        r@ == auto_sync_answer(on, forbidden),
        final(config).auto_sync == on,
        final(config).hubs == old(config).hubs,
        final(config).official_removed == old(config).official_removed,
{
    config.auto_sync = on;
    if on && forbidden {
        "Auto-sync on, but ".to_string().concat(NO_AUTO_SYNC_VAR).concat(
            " is set in the environment and still wins.",
        )
    } else if on {
        "Auto-sync on: stale hubs refresh on start, at most daily.".to_string()
    } else {
        "Auto-sync off: hubs refresh only when you run `logscout hub sync`.".to_string()
    }
}

/// What is said of a sync that is over.
pub fn sync_text(summary: &SyncSummary) -> (r: String)
    ensures
        r@ == "Synced "@ + decimal(summary.synced as nat) + " hub(s), "@ + decimal(
            summary.items as nat,
        ) + " item(s)."@,
{
    "Synced ".to_string().concat(decimal_text(summary.synced as u64).as_str()).concat(
        " hub(s), ",
    ).concat(decimal_text(summary.items as u64).as_str()).concat(" item(s).")
}

/// Whether a sync reached nothing, which is worth an exit code: a hub failed, and none synced.
pub fn nothing_synced(summary: &SyncSummary) -> (r: bool)
    ensures
        r == (summary.synced == 0 && summary.failures@.len() > 0),
{
    summary.synced == 0 && summary.failures.len() > 0
}

/// The lines of the hubs, each ended by a line feed.
pub open spec fn hub_lines(hubs: Seq<Hub>, holds: Seq<SyncReport>) -> Seq<char>
    decreases hubs.len(),
{
    if hubs.len() == 0 {
        Seq::empty()
    } else {
        hub_lines(hubs.drop_last(), holds) + hub_line(hubs.last()@, holds[hubs.len() - 1]) + "\n"@
    }
}

/// What is said of the start-up sync.
pub open spec fn auto_sync_state(on: bool, forbidden: bool) -> Seq<char> {
    if forbidden {
        "Auto-sync: off ("@ + NO_AUTO_SYNC_VAR@ + " is set in the environment)."@
    } else if on {
        "Auto-sync: stale hubs refresh on start, at most daily."@
    } else {
        "Auto-sync: off — hubs refresh only when you sync them."@
    }
}

/// What is said of the configured hubs.
pub open spec fn listing(
    config: HubConfig,
    holds: Seq<SyncReport>,
    seeded: bool,
    forbidden: bool,
    path: Option<Seq<char>>,
) -> Seq<char> {
    let head = if seeded {
        "Configured the official hub ("@ + OFFICIAL_HUB_REPO@ + ").\n\n"@
    } else {
        ""@
    };
    if config.hubs@.len() == 0 {
        head + "No hubs configured. Add one with `logscout hub add <owner/repo>`."@
    } else {
        let body = head + hub_lines(config.hubs@, holds) + "\n"@ + auto_sync_state(
            config.auto_sync,
            forbidden,
        );
        match path {
            Some(p) => body + "\nConfigured in "@ + p,
            None => body,
        }
    }
}

/// The configured hubs, one per line; `holds` is what each of them holds.
pub fn hub_listing(
    config: &HubConfig,
    holds: &Vec<SyncReport>,
    seeded: bool,
    forbidden: bool,
    path: Option<&str>,
) -> (r: String)
    requires
        holds@.len() == config.hubs@.len(),
    ensures
        r@ == listing(*config, holds@, seeded, forbidden, opt_str(path)),
{
    let head = if seeded {
        "Configured the official hub (".to_string().concat(OFFICIAL_HUB_REPO).concat(").\n\n")
    } else {
        "".to_string()
    };
    if config.hubs.len() == 0 {
        return head.concat("No hubs configured. Add one with `logscout hub add <owner/repo>`.");
    }
    let ghost all = config.hubs@;
    let ghost start = head@;
    let mut body = head;
    assert(body@ =~= start + hub_lines(all.take(0), holds@));
    for i in 0..config.hubs.len()
        invariant
            all == config.hubs@,
            holds@.len() == all.len(),
            body@ == start + hub_lines(all.take(i as int), holds@),
    {
        assert(all.take(i + 1).drop_last() =~= all.take(i as int));
        assert(all.take(i + 1).last() == all[i as int]);
        let line = describe_hub(&config.hubs[i], &holds[i]);
        body.append(line.as_str());
        body.append("\n");
        assert(body@ =~= start + hub_lines(all.take(i + 1), holds@));
    }
    assert(all.take(all.len() as int) =~= all);
    body.append("\n");
    if forbidden {
        let state = "Auto-sync: off (".to_string().concat(NO_AUTO_SYNC_VAR).concat(
            " is set in the environment).",
        );
        body.append(state.as_str());
    } else if config.auto_sync {
        body.append("Auto-sync: stale hubs refresh on start, at most daily.");
    } else {
        body.append("Auto-sync: off — hubs refresh only when you sync them.");
    }
    if let Some(path) = path {
        body.append("\nConfigured in ");
        body.append(path);
    }
    body
}

// ---------------------------------------------------------------------------
// Versions
// ---------------------------------------------------------------------------

/// The version, and under it the notice of a newer one if there is one.
pub fn version_text(notice: Option<&str>) -> (r: String)
    ensures
        r@ == match notice {
            Some(n) => "logscout "@ + CURRENT_VERSION@ + "\n"@ + n@,
            None => "logscout "@ + CURRENT_VERSION@,
        },
{
    let version = "logscout ".to_string().concat(CURRENT_VERSION);
    match notice {
        Some(n) => version.concat("\n").concat(n),
        None => version,
    }
}

/// What an upgrade would do.
pub fn upgrade_check_text(latest: Option<&str>) -> (r: String)
    ensures
        r@ == match latest {
            Some(l) => "logscout "@ + CURRENT_VERSION@ + " -> "@ + l@
                + " available.\nRun `logscout upgrade` to install it."@,
            None => "logscout "@ + CURRENT_VERSION@ + " is the latest release."@,
        },
{
    let version = "logscout ".to_string().concat(CURRENT_VERSION);
    match latest {
        Some(l) => version.concat(" -> ").concat(l).concat(
            " available.\nRun `logscout upgrade` to install it.",
        ),
        None => version.concat(" is the latest release."),
    }
}

/// What an upgrade did.
pub fn upgraded_text(done: &Upgraded) -> (r: String)
    ensures
        r@ == match *done {
            Upgraded::AlreadyCurrent(version) => "logscout "@ + version@
                + " is already the latest release."@,
            Upgraded::Replaced { path, version } => "Upgraded to logscout "@ + version@ + " at "@
                + path@ + "."@,
        },
{
    match done {
        Upgraded::AlreadyCurrent(version) => "logscout ".to_string().concat(
            version.as_str(),
        ).concat(" is already the latest release."),
        Upgraded::Replaced { path, version } => "Upgraded to logscout ".to_string().concat(
            version.as_str(),
        ).concat(" at ").concat(path.as_str()).concat("."),
    }
}

/// What an uninstall is about to remove, and the question whether to.
pub fn uninstall_warning(binary: &str, purge: bool, library: Option<&str>) -> (r: String)
    ensures
        r@ == "This will remove "@ + binary@ + ".\n"@ + (match library {
            None => ""@,
            Some(dir) => if purge {
                "It will also remove "@ + dir@
                    + " — your schemas, filters, saved searches and hubs.\n"@
            } else {
                dir@ + " is kept (schemas, filters, hubs). Pass --purge to remove it too.\n"@
            },
        }) + "Continue? [y/N] "@,
{
    let what = match library {
        None => "".to_string(),
        Some(dir) => if purge {
            "It will also remove ".to_string().concat(dir).concat(
                " — your schemas, filters, saved searches and hubs.\n",
            )
        } else {
            dir.to_string().concat(
                " is kept (schemas, filters, hubs). Pass --purge to remove it too.\n",
            )
        },
    };
    "This will remove ".to_string().concat(binary).concat(".\n").concat(what.as_str()).concat(
        "Continue? [y/N] ",
    )
}

/// Whether an answer is a yes.
pub fn confirmed(answer: &str) -> (r: bool)
    ensures
        r == (lowercase_of(trimmed(answer@)) == "y"@ || lowercase_of(trimmed(answer@)) == "yes"@),
{
    let said = lowercase(trim(answer));
    same_text(said.as_str(), "y") || same_text(said.as_str(), "yes")
}

/// What an uninstall removed, or kept.
pub open spec fn uninstall_lines(
    removed: Uninstalled,
    purge: bool,
    kept: Option<Seq<char>>,
) -> Seq<Seq<char>> {
    let first = match removed.binary {
        Some(path) => seq!["Removed "@ + path@ + "."@],
        None => Seq::empty(),
    };
    match removed.library {
        Some(dir) => first.push("Removed "@ + dir@ + "."@),
        None => if kept is Some && !purge {
            first.push("Kept "@ + kept->0 + " — remove it with `--purge`."@)
        } else {
            first
        },
    }
}

/// What an uninstall removed, line by line; `kept` is the user's library where it is still
/// there.
pub fn uninstall_report(removed: &Uninstalled, purge: bool, kept: Option<&str>) -> (r: Vec<String>)
    ensures
        texts(r@) == uninstall_lines(*removed, purge, opt_str(kept)),
{
    let mut out: Vec<String> = Vec::new();
    let ghost first = match &removed.binary {
        Some(path) => seq!["Removed "@ + path@ + "."@],
        None => Seq::empty(),
    };
    if let Some(path) = &removed.binary {
        out.push("Removed ".to_string().concat(path.as_str()).concat("."));
    }
    assert(texts(out@) =~= first);
    match &removed.library {
        Some(dir) => {
            out.push("Removed ".to_string().concat(dir.as_str()).concat("."));
            assert(texts(out@) =~= first.push("Removed "@ + dir@ + "."@));
        },
        None => {
            if let Some(dir) = kept {
                if !purge {
                    out.push(
                        "Kept ".to_string().concat(dir).concat(" — remove it with `--purge`."),
                    );
                    assert(texts(out@) =~= first.push(
                        "Kept "@ + dir@ + " — remove it with `--purge`."@,
                    ));
                }
            }
        },
    }
    out
}

// ---------------------------------------------------------------------------
// Sources
// ---------------------------------------------------------------------------

/// The files named on the command line, each resolved against the folder `base`.
pub fn named_files(base: &str, files: &[String]) -> (r: Vec<String>)
    ensures
        texts(r@) == texts(files@).map_values(|f: Seq<char>| joined(base@, f)),
{
    let mut out: Vec<String> = Vec::new();
    for i in 0..files.len()
        invariant
            out@.len() == i,
            forall|k: int| 0 <= k < i ==> (#[trigger] out@[k])@ == joined(base@, files@[k]@),
    {
        out.push(join_path(base, files[i].as_str()));
    }
    assert(texts(out@) =~= texts(files@).map_values(|f: Seq<char>| joined(base@, f)));
    out
}

} // verus!
