//! Hubs: remote libraries of schemas, filters and saved searches.
//!
//! A hub is a git repo with `schemas`, `filters` and `searches` folders. Its items appear as
//! `<hub>/<name>`, except those of the official hub, which keep their bare names and so shadow
//! the bundled copies.

use crate::clock::{elapsed, is_old, old_is_as_long_ago_as_the_limit, stamp_is_old, Moment};
use crate::extractor::{capped, Schema, USER_SCHEMAS_SUBDIR};
use crate::filters::FilterFile;
use crate::lists::{clone_option, keep};
use crate::packs::{is_safe, SchemaFile};
use crate::paths::{
    join_path, joined, user_path, user_place, USER_FILTERS_SUBDIR, USER_SEARCHES_SUBDIR,
};
use crate::repo::{is_official, repo_is_official, Forge, OFFICIAL_HUB_REPO};
use crate::search::SearchFile;
use crate::text::{
    blank, char_is_alphanumeric, chars_of, decimal, decimal_text, hex_char, hex_digit, is_blank,
    opt_str, opt_text, same_text, split, strs, text_split,
};
use vstd::prelude::*;

verus! {

/// The folders of a hub that hold items.
pub const HUB_FOLDERS: [&'static str; 3] = [
    USER_SCHEMAS_SUBDIR,
    USER_FILTERS_SUBDIR,
    USER_SEARCHES_SUBDIR,
];

/// One subfolder per hub, each a snapshot of the remote repo.
pub const HUBS_SUBDIR: &'static str = "hubs";

/// The configured hub list.
pub const HUBS_FILE: &'static str = "hubs.json";

/// The hub every install is configured with.
pub const OFFICIAL_HUB_NAME: &'static str = "official";

/// How many seconds stale a hub's cache may get before a start refreshes it.
pub const AUTO_SYNC_TTL: i64 = 86400;

/// Setting this to anything non-empty stops a start from touching the network.
pub const NO_AUTO_SYNC_VAR: &'static str = "LOGSCOUT_NO_HUB_SYNC";

/// One configured remote hub.
#[derive(Debug, PartialEq, Eq)]
pub struct Hub {
    /// Local, unique, and the namespace its items appear under.
    pub name: String,
    /// The remote, as the user typed it.
    pub url: String,
    /// Branch to track. `None` means the repo's default branch.
    pub branch: Option<String>,
    /// A disabled hub stays configured and cached but contributes nothing.
    pub enabled: bool,
    /// When the cache was last refreshed, RFC 3339. `None` until the first sync.
    pub last_synced: Option<String>,
    /// The first-party hub: its items are not namespaced.
    pub official: bool,
    /// The kind of host this hub is on, learned on the first successful sync.
    pub forge: Option<Forge>,
}

/// What a hub is.
#[verifier::ext_equal]
pub struct HubParts {
    pub name: Seq<char>,
    pub url: Seq<char>,
    pub branch: Option<Seq<char>>,
    pub enabled: bool,
    pub last_synced: Option<Seq<char>>,
    pub official: bool,
    pub forge: Option<Forge>,
}

impl View for Hub {
    type V = HubParts;

    open spec fn view(&self) -> HubParts {
        HubParts {
            name: self.name@,
            url: self.url@,
            branch: opt_text(self.branch),
            enabled: self.enabled,
            last_synced: opt_text(self.last_synced),
            official: self.official,
            forge: self.forge,
        }
    }
}

impl Clone for Hub {
    fn clone(&self) -> (r: Self)
        ensures
            r == *self,
    {
        Hub {
            name: self.name.clone(),
            url: self.url.clone(),
            branch: clone_option(&self.branch),
            enabled: self.enabled,
            last_synced: clone_option(&self.last_synced),
            official: self.official,
            forge: self.forge,
        }
    }
}

impl HubParts {
    /// The namespace of its items; none for the official hub.
    pub open spec fn namespace(self) -> Option<Seq<char>> {
        if self.official {
            None
        } else {
            Some(self.name)
        }
    }

    /// Whether its cache is at least `ttl` seconds old; never synced counts, and so does a
    /// stamp that cannot be read.
    pub open spec fn is_stale(self, ttl: i64, now: Moment) -> bool {
        match self.last_synced {
            Some(stamp) => is_old(stamp, now, ttl),
            None => true,
        }
    }
}

impl Hub {
    /// The namespace this hub's items take, or `None` for the official hub's bare names.
    pub fn namespace(&self) -> (r: Option<&str>)
        ensures
            opt_str(r) == self@.namespace(),
    {
        if self.official {
            None
        } else {
            Some(self.name.as_str())
        }
    }

    /// Whether the cache is old enough to refresh.
    pub fn is_stale(&self, ttl: i64, now: Moment) -> (r: bool)
        ensures
            r == self@.is_stale(ttl, now),
    {
        match &self.last_synced {
            Some(stamp) => stamp_is_old(stamp.as_str(), now, ttl),
            None => true,
        }
    }
}

/// The configured hubs.
#[derive(Debug, PartialEq, Eq)]
pub struct HubConfig {
    pub hubs: Vec<Hub>,
    /// Refresh stale hubs in the background on start.
    pub auto_sync: bool,
    /// The user removed the official hub, so the next start does not add it back. Adding it
    /// again clears this.
    pub official_removed: bool,
}

/// A fresh configuration syncs by itself: a first run most needs the official hub.
impl Default for HubConfig {
    fn default() -> (r: Self)
        ensures
            r.hubs@ == Seq::<Hub>::empty(),
            r.auto_sync,
            !r.official_removed,
    {
        HubConfig { hubs: Vec::new(), auto_sync: true, official_removed: false }
    }
}

// ---------------------------------------------------------------------------
// Places
// ---------------------------------------------------------------------------

/// The path to the hub list, or `None` when there is no home directory.
pub fn hub_config_path(home: Option<&str>) -> (r: Option<String>)
    ensures
        opt_text(r) == user_place(opt_str(home), HUBS_FILE@),
{
    user_path(home, HUBS_FILE)
}

/// The root of the hub caches.
pub fn hub_cache_root(home: Option<&str>) -> (r: Option<String>)
    ensures
        opt_text(r) == user_place(opt_str(home), HUBS_SUBDIR@),
{
    user_path(home, HUBS_SUBDIR)
}

/// A character as a folder's name holds it where it cannot stand there itself: `%` and its code
/// in six hexadecimal digits.
pub open spec fn coded_char(c: char) -> Seq<char> {
    let n = c as int;
    seq![
        '%',
        hex_digit(n / 1048576),
        hex_digit(n / 65536 % 16),
        hex_digit(n / 4096 % 16),
        hex_digit(n / 256 % 16),
        hex_digit(n / 16 % 16),
        hex_digit(n % 16),
    ]
}

/// A character of a folder's name: a safe one as it is, but for a dot in front.
pub open spec fn folder_char(c: char, first: bool) -> Seq<char> {
    if is_safe(c) && !(first && c == '.') {
        seq![c]
    } else {
        coded_char(c)
    }
}

/// A name, or with `first` false the rest of one, as a folder's name.
pub open spec fn coded(name: Seq<char>, first: bool) -> Seq<char>
    decreases name.len(),
{
    if name.len() == 0 {
        Seq::empty()
    } else {
        folder_char(name[0], first) + coded(name.skip(1), false)
    }
}

/// The folder of a hub: its name where that is safe in a file name.
pub open spec fn hub_folder(name: Seq<char>) -> Seq<char> {
    if name.len() == 0 {
        "%"@
    } else {
        coded(name, true)
    }
}

fn push_coded(out: &mut String, c: char)
    ensures
        final(out)@ == old(out)@ + coded_char(c),
{
    let n: u32 = c as u32;
    let ghost before = out@;
    out.push('%');
    out.push(hex_char((n / 1048576) as u8));
    out.push(hex_char((n / 65536 % 16) as u8));
    out.push(hex_char((n / 4096 % 16) as u8));
    out.push(hex_char((n / 256 % 16) as u8));
    out.push(hex_char((n / 16 % 16) as u8));
    out.push(hex_char((n % 16) as u8));
    assert(out@ =~= before + coded_char(c));
}

/// The name of the folder that a hub is kept in: of its own for every name, and never one that
/// leads elsewhere.
pub fn hub_folder_name(name: &str) -> (r: String)
    ensures
        r@ == hub_folder(name@),
{
    let chars = chars_of(name);
    if chars.len() == 0 {
        return "%".to_string();
    }
    let mut out = String::new();
    assert(name@.skip(0) =~= name@);
    assert(out@ + coded(name@, true) =~= coded(name@, true));
    for i in 0..chars.len()
        invariant
            chars@ == name@,
            out@ + coded(name@.skip(i as int), i == 0) == coded(name@, true),
    {
        let c = chars[i];
        let ghost before = out@;
        let ghost rest = name@.skip(i as int);
        assert(rest.skip(1) =~= name@.skip(i + 1));
        if (char_is_alphanumeric(c) || c == '-' || c == '_' || c == '.') && !(i == 0 && c == '.') {
            out.push(c);
            assert(out@ =~= before + folder_char(c, i == 0));
        } else {
            push_coded(&mut out, c);
        }
        assert(out@ + coded(rest.skip(1), false) =~= before + coded(rest, i == 0));
    }
    assert(name@.skip(name@.len() as int).len() == 0);
    assert(out@ + Seq::<char>::empty() =~= out@);
    out
}

/// Where a hub's snapshot lives.
pub open spec fn cache_place(home: Option<Seq<char>>, name: Seq<char>) -> Option<Seq<char>> {
    match user_place(home, HUBS_SUBDIR@) {
        Some(root) => Some(joined(root, hub_folder(name))),
        None => None,
    }
}

/// Where a hub's snapshot lives: one folder of the cache's root for each name.
pub fn hub_cache_dir(home: Option<&str>, name: &str) -> (r: Option<String>)
    ensures
        opt_text(r) == cache_place(opt_str(home), name@),
{
    match hub_cache_root(home) {
        Some(root) => Some(join_path(root.as_str(), hub_folder_name(name).as_str())),
        None => None,
    }
}

/// A folder beside a hub's snapshot, for the time that the snapshot is replaced.
pub open spec fn side_place(home: Option<Seq<char>>, name: Seq<char>, purpose: Side) -> Option<
    Seq<char>,
> {
    match cache_place(home, name) {
        Some(dir) => Some(dir + purpose.mark()),
        None => None,
    }
}

/// What stands beside a hub's snapshot while it is replaced: the new one, or the old one.
#[derive(Debug, Clone, Copy, PartialEq, Eq, Structural)]
pub enum Side {
    Incoming,
    Outgoing,
}

impl Side {
    pub open spec fn mark(self) -> Seq<char> {
        match self {
            Side::Incoming => "%incoming"@,
            Side::Outgoing => "%outgoing"@,
        }
    }
}

/// Where a hub's next snapshot is put together, or its last one is set aside.
pub fn hub_side_dir(home: Option<&str>, name: &str, purpose: Side) -> (r: Option<String>)
    ensures
        opt_text(r) == side_place(opt_str(home), name@, purpose),
{
    match hub_cache_dir(home, name) {
        Some(dir) => Some(
            match purpose {
                Side::Incoming => dir.concat("%incoming"),
                Side::Outgoing => dir.concat("%outgoing"),
            },
        ),
        None => None,
    }
}

// ---------------------------------------------------------------------------
// The list of hubs
// ---------------------------------------------------------------------------

/// The first hub from `i` on with this name; the length where there is none.
pub open spec fn hub_index(hubs: Seq<Hub>, name: Seq<char>, i: int) -> int
    decreases hubs.len() - i,
{
    if i >= hubs.len() || hubs[i].name@ == name {
        i
    } else {
        hub_index(hubs, name, i + 1)
    }
}

/// Whether a hub of this name is configured.
pub open spec fn has_hub(hubs: Seq<Hub>, name: Seq<char>) -> bool {
    hub_index(hubs, name, 0) < hubs.len()
}

pub open spec fn is_enabled() -> spec_fn(Hub) -> bool {
    |h: Hub| h.enabled
}

pub open spec fn some_official(hubs: Seq<Hub>) -> bool {
    exists|i: int| 0 <= i < hubs.len() && (#[trigger] hubs[i]).official
}

/// Why a hub may not be added, if it may not.
pub open spec fn add_refusal(hubs: Seq<Hub>, name: Seq<char>) -> Option<Seq<char>> {
    if is_blank(name) {
        Some("a hub needs a name"@)
    } else if has_hub(hubs, name) {
        Some("hub '"@ + name + "' already exists"@)
    } else {
        None
    }
}

/// Whether a hub is due: enabled and a day old.
pub open spec fn is_due(now: Moment) -> spec_fn(Hub) -> bool {
    |h: Hub| h.enabled && h@.is_stale(AUTO_SYNC_TTL, now)
}

pub proof fn lemma_hub_index(hubs: Seq<Hub>, name: Seq<char>, i: int)
    requires
        0 <= i <= hubs.len(),
    ensures
        i <= hub_index(hubs, name, i) <= hubs.len(),
        hub_index(hubs, name, i) < hubs.len() ==> hubs[hub_index(hubs, name, i)].name@ == name,
        forall|k: int| i <= k < hub_index(hubs, name, i) ==> (#[trigger] hubs[k]).name@ != name,
    decreases hubs.len() - i,
{
    if i < hubs.len() && hubs[i].name@ != name {
        lemma_hub_index(hubs, name, i + 1);
    }
}

impl HubConfig {
    fn position(&self, name: &str) -> (r: usize)
        ensures
            r == hub_index(self.hubs@, name@, 0),
            r <= self.hubs@.len(),
    {
        for i in 0..self.hubs.len()
            invariant
                hub_index(self.hubs@, name@, 0) == hub_index(self.hubs@, name@, i as int),
        {
            if same_text(self.hubs[i].name.as_str(), name) {
                return i;
            }
        }
        self.hubs.len()
    }

    pub fn get(&self, name: &str) -> (r: Option<&Hub>)
        ensures
            match r {
                Some(h) => has_hub(self.hubs@, name@) && *h == self.hubs@[hub_index(
                    self.hubs@,
                    name@,
                    0,
                )],
                None => !has_hub(self.hubs@, name@),
            },
    {
        let i: usize = self.position(name);
        if i < self.hubs.len() {
            Some(&self.hubs[i])
        } else {
            None
        }
    }

    pub fn get_mut(&mut self, name: &str) -> (r: Option<&mut Hub>)
        ensures
            match r {
                Some(h) => {
                    &&& has_hub(old(self).hubs@, name@)
                    &&& *h == old(self).hubs@[hub_index(old(self).hubs@, name@, 0)]
                    &&& final(self).hubs@ == old(self).hubs@.update(
                        hub_index(old(self).hubs@, name@, 0),
                        *final(h),
                    )
                    &&& final(self).auto_sync == old(self).auto_sync
                    &&& final(self).official_removed == old(self).official_removed
                },
                None => !has_hub(old(self).hubs@, name@) && *final(self) == *old(self),
            },
    {
        let i: usize = self.position(name);
        if i < self.hubs.len() {
            Some(&mut self.hubs[i])
        } else {
            None
        }
    }

    /// Hubs that contribute items, in configured order, which is their precedence order.
    pub fn active(&self) -> (r: Vec<&Hub>)
        ensures
            r@.map_values(|h: &Hub| *h) == keep(self.hubs@, is_enabled()),
    {
        let ghost all = self.hubs@;
        let mut out: Vec<&Hub> = Vec::new();
        assert(out@.map_values(|h: &Hub| *h) =~= keep(all.take(0), is_enabled()));
        for i in 0..self.hubs.len()
            invariant
                all == self.hubs@,
                out@.map_values(|h: &Hub| *h) == keep(all.take(i as int), is_enabled()),
        {
            assert(all.take(i + 1).drop_last() == all.take(i as int));
            assert(all.take(i + 1).last() == all[i as int]);
            if self.hubs[i].enabled {
                let ghost before = out@.map_values(|h: &Hub| *h);
                out.push(&self.hubs[i]);
                assert(out@.map_values(|h: &Hub| *h) =~= before.push(all[i as int]));
            }
        }
        assert(all.take(all.len() as int) == all);
        out
    }

    /// Why a hub of this name cannot be added, if it cannot.
    pub fn refusal(&self, name: &str) -> (r: Option<String>)
        ensures
            opt_text(r) == add_refusal(self.hubs@, name@),
    {
        if blank(name) {
            return Some("a hub needs a name".to_string());
        }
        if self.get(name).is_some() {
            return Some("hub '".to_string().concat(name).concat("' already exists"));
        }
        None
    }

    /// Add a hub. The name must be free: replacing one would repoint every item under that
    /// namespace at a different repo. Adding the official repo back lifts its tombstone.
    pub fn add(&mut self, hub: Hub) -> (r: Result<(), String>)
        ensures
            match r {
                Ok(_) => hub_added(*old(self), hub, *final(self)),
                Err(e) => add_refusal(old(self).hubs@, hub@.name) == Some(e@) && *final(self)
                    == *old(self),
            },
    {
        if let Some(error) = self.refusal(hub.name.as_str()) {
            return Err(error);
        }
        if hub.official || repo_is_official(hub.url.as_str()) {
            self.official_removed = false;
        }
        self.hubs.push(hub);
        Ok(())
    }

    /// Forget a hub and return it. Removing the official hub leaves a tombstone.
    pub fn remove(&mut self, name: &str) -> (r: Option<Hub>)
        ensures
            match r {
                Some(h) => hub_removed(*old(self), name@, *final(self), h),
                None => !has_hub(old(self).hubs@, name@) && *final(self) == *old(self),
            },
    {
        let i: usize = self.position(name);
        if i >= self.hubs.len() {
            return None;
        }
        let hub = self.hubs.remove(i);
        if hub.official {
            self.official_removed = true;
        }
        Some(hub)
    }

    /// Add the official hub if it is not configured, reporting whether it was added. One that
    /// was removed on purpose stays away, and a user's own hub of that name was there first.
    pub fn ensure_official(&mut self) -> (r: bool)
        ensures
            official_seeded(*old(self), *final(self), r),
    {
        if self.official_removed || self.any_official() {
            return false;
        }
        if self.get(OFFICIAL_HUB_NAME).is_some() {
            return false;
        }
        let hub = Hub {
            name: OFFICIAL_HUB_NAME.to_string(),
            url: OFFICIAL_HUB_REPO.to_string(),
            branch: None,
            enabled: true,
            last_synced: None,
            official: true,
            forge: Some(Forge::GitHub),
        };
        self.hubs.push(hub);
        assert(self.hubs@.drop_last() =~= old(self).hubs@);
        true
    }

    fn any_official(&self) -> (r: bool)
        ensures
            r == some_official(self.hubs@),
    {
        for i in 0..self.hubs.len()
            invariant
                forall|j: int| 0 <= j < i ==> !(#[trigger] self.hubs@[j]).official,
        {
            if self.hubs[i].official {
                return true;
            }
        }
        false
    }

    /// Hubs a start should refresh: enabled, stale, and only when auto-sync is on.
    pub fn due_for_auto_sync(&self, now: Moment) -> (r: Vec<Hub>)
        ensures
            r@ == if self.auto_sync {
                keep(self.hubs@, is_due(now))
            } else {
                Seq::empty()
            },
    {
        let mut out: Vec<Hub> = Vec::new();
        if !self.auto_sync {
            return out;
        }
        let ghost all = self.hubs@;
        assert(out@ =~= keep(all.take(0), is_due(now)));
        for i in 0..self.hubs.len()
            invariant
                all == self.hubs@,
                out@ == keep(all.take(i as int), is_due(now)),
        {
            assert(all.take(i + 1).drop_last() == all.take(i as int));
            assert(all.take(i + 1).last() == all[i as int]);
            if self.hubs[i].enabled && self.hubs[i].is_stale(AUTO_SYNC_TTL, now) {
                out.push(self.hubs[i].clone());
            }
        }
        assert(all.take(all.len() as int) == all);
        out
    }
}

/// What adding a hub does.
pub open spec fn hub_added(before: HubConfig, hub: Hub, after: HubConfig) -> bool {
    &&& add_refusal(before.hubs@, hub@.name) is None
    &&& after.hubs@ == before.hubs@.push(hub)
    &&& after.auto_sync == before.auto_sync
    &&& after.official_removed == (before.official_removed && !(hub.official || is_official(
        hub@.url,
    )))
}

/// What forgetting a hub does.
pub open spec fn hub_removed(
    before: HubConfig,
    name: Seq<char>,
    after: HubConfig,
    hub: Hub,
) -> bool {
    let i = hub_index(before.hubs@, name, 0);
    &&& has_hub(before.hubs@, name)
    &&& hub == before.hubs@[i]
    &&& after.hubs@ == before.hubs@.remove(i)
    &&& after.auto_sync == before.auto_sync
    &&& after.official_removed == (before.official_removed || hub.official)
}

/// What seeding the official hub does: it is added where no hub is the official one, none took
/// its name and it was not removed before; otherwise nothing changes.
pub open spec fn official_seeded(before: HubConfig, after: HubConfig, added: bool) -> bool {
    &&& added == (!some_official(before.hubs@) && !before.official_removed && !has_hub(
        before.hubs@,
        OFFICIAL_HUB_NAME@,
    ))
    &&& !added ==> after == before
    &&& added ==> {
        &&& after.hubs@.len() == before.hubs@.len() + 1
        &&& after.hubs@.drop_last() == before.hubs@
        &&& after.hubs@.last()@ == official_hub()
        &&& after.auto_sync == before.auto_sync
        &&& after.official_removed == before.official_removed
    }
}

/// The hub that every install starts with.
pub open spec fn official_hub() -> HubParts {
    HubParts {
        name: OFFICIAL_HUB_NAME@,
        url: OFFICIAL_HUB_REPO@,
        branch: None,
        enabled: true,
        last_synced: None,
        official: true,
        forge: Some(Forge::GitHub),
    }
}

/// Whether the environment forbids the start-up sync: its variable holds anything but blanks.
pub fn auto_sync_disabled_by_env(value: Option<&str>) -> (r: bool)
    ensures
        r == (value is Some && !is_blank(value->0@)),
{
    match value {
        Some(v) => !blank(v),
        None => false,
    }
}

// ---------------------------------------------------------------------------
// What a hub holds
// ---------------------------------------------------------------------------

/// What a sync brought in, for the status line.
#[derive(Debug, Clone, Copy, PartialEq, Eq, Structural)]
pub struct SyncReport {
    pub schemas: usize,
    pub filters: usize,
    pub searches: usize,
}

impl Default for SyncReport {
    fn default() -> (r: Self)
        ensures
            r.schemas == 0,
            r.filters == 0,
            r.searches == 0,
    {
        SyncReport { schemas: 0, filters: 0, searches: 0 }
    }
}

/// Counts in words.
pub open spec fn report_text(report: SyncReport) -> Seq<char> {
    decimal(report.schemas as nat) + " schema(s), "@ + decimal(report.filters as nat)
        + " filter(s), "@ + decimal(report.searches as nat) + " search(es)"@
}

impl SyncReport {
    /// How many items there are in all, as far as a `usize` counts.
    pub fn total(&self) -> (r: usize)
        ensures
            r == capped(self.schemas + self.filters + self.searches),
    {
        self.schemas.saturating_add(self.filters).saturating_add(self.searches)
    }

    pub fn describe(&self) -> (r: String)
        ensures
            r@ == report_text(*self),
    {
        let mut out = decimal_text(self.schemas as u64);
        out.append(" schema(s), ");
        out.append(decimal_text(self.filters as u64).as_str());
        out.append(" filter(s), ");
        out.append(decimal_text(self.searches as u64).as_str());
        out.append(" search(es)");
        out
    }
}

/// How current a hub is, in words.
pub open spec fn hub_state(hub: HubParts) -> Seq<char> {
    if !hub.enabled {
        "disabled"@
    } else {
        match hub.last_synced {
            None => "never synced"@,
            Some(stamp) => "synced "@ + split(stamp, 'T')[0],
        }
    }
}

/// One hub on one line.
pub open spec fn hub_line(hub: HubParts, holds: SyncReport) -> Seq<char> {
    let mark = if hub.official && hub.name != OFFICIAL_HUB_NAME@ {
        " (official)"@
    } else {
        Seq::empty()
    };
    hub.name + mark + " ["@ + hub.url + "] — "@ + report_text(holds) + ", "@ + hub_state(hub)
}

/// One hub on one line: what it is, what it holds, and how current it is.
pub fn describe_hub(hub: &Hub, holds: &SyncReport) -> (r: String)
    ensures
        r@ == hub_line(hub@, *holds),
{
    let mut out = hub.name.clone();
    assert(out@ + Seq::<char>::empty() =~= out@);
    if hub.official && !same_text(hub.name.as_str(), OFFICIAL_HUB_NAME) {
        out.append(" (official)");
    }
    out.append(" [");
    out.append(hub.url.as_str());
    out.append("] — ");
    out.append(holds.describe().as_str());
    out.append(", ");
    let ghost head = out@;
    if !hub.enabled {
        out.append("disabled");
    } else {
        match &hub.last_synced {
            None => {
                out.append("never synced");
            },
            Some(stamp) => {
                let parts = text_split(stamp.as_str(), 'T');
                assert(strs(parts@).len() == parts@.len());
                assert(strs(parts@)[0] == parts@[0]@) by {
                    assert(split(stamp@, 'T').len() > 0);
                }
                out.append("synced ");
                out.append(parts[0]);
                assert(out@ =~= head + ("synced "@ + split(stamp@, 'T')[0]));
            },
        }
    }
    out
}

/// How a hub's item is named everywhere the user sees it.
pub open spec fn namespaced_name(hub: Seq<char>, name: Seq<char>) -> Seq<char> {
    hub + "/"@ + name
}

pub fn namespaced(hub: &str, name: &str) -> (r: String)
    ensures
        r@ == namespaced_name(hub@, name@),
{
    hub.to_string().concat("/").concat(name)
}

/// An item's name under a namespace, or bare without one.
pub open spec fn renamed(namespace: Option<Seq<char>>, name: Seq<char>) -> Seq<char> {
    match namespace {
        Some(hub) => namespaced_name(hub, name),
        None => name,
    }
}

fn rename(namespace: Option<&str>, name: &str) -> (r: String)
    ensures
        r@ == renamed(opt_str(namespace), name@),
{
    match namespace {
        Some(hub) => namespaced(hub, name),
        None => name.to_string(),
    }
}

/// Whether `after` is `before` under the hub's namespace, its own name included.
pub open spec fn schema_under(hub: HubParts, before: SchemaFile, after: SchemaFile) -> bool {
    let name = renamed(hub.namespace(), before.name@);
    &&& after.name@ == name
    &&& after.description@ == before.description@
    &&& after.schema@ == (Schema { name, ..before.schema@ })
}

/// A hub's schemas, each renamed `<hub>/<schema>` (bare for the official hub).
pub fn hub_schemas(hub: &Hub, loaded: &Vec<SchemaFile>) -> (r: Vec<SchemaFile>)
    ensures
        r@.len() == loaded@.len(),
        forall|i: int|
            0 <= i < r@.len() ==> schema_under(hub@, loaded@[i], #[trigger] r@[i]),
{
    let mut out: Vec<SchemaFile> = Vec::new();
    for k in 0..loaded.len()
        invariant
            out@.len() == k,
            forall|i: int| 0 <= i < k ==> schema_under(hub@, loaded@[i], #[trigger] out@[i]),
    {
        let file = &loaded[k];
        let name = rename(hub.namespace(), file.name.as_str());
        let mut schema = file.schema.clone();
        schema.name = name.clone();
        assert(schema@ =~= (Schema { name: name@, ..file.schema@ }));
        out.push(SchemaFile { name, description: file.description.clone(), schema });
    }
    out
}

/// Whether `after` is `before` under the hub's namespace.
pub open spec fn filter_under(hub: HubParts, before: FilterFile, after: FilterFile) -> bool {
    &&& after.name@ == renamed(hub.namespace(), before.name@)
    &&& after.description == before.description
    &&& after.filter == before.filter
}

/// A hub's filters, each renamed `<hub>/<filter>` (bare for the official hub).
pub fn hub_filters(hub: &Hub, loaded: &Vec<FilterFile>) -> (r: Vec<FilterFile>)
    ensures
        r@.len() == loaded@.len(),
        forall|i: int|
            0 <= i < r@.len() ==> filter_under(hub@, loaded@[i], #[trigger] r@[i]),
{
    let mut out: Vec<FilterFile> = Vec::new();
    for k in 0..loaded.len()
        invariant
            out@.len() == k,
            forall|i: int| 0 <= i < k ==> filter_under(hub@, loaded@[i], #[trigger] out@[i]),
    {
        let file = &loaded[k];
        let name = rename(hub.namespace(), file.name.as_str());
        out.push(
            FilterFile {
                name,
                description: file.description.clone(),
                filter: file.filter.clone(),
            },
        );
    }
    out
}

/// Whether `after` is `before` under the hub's namespace.
pub open spec fn search_under(hub: HubParts, before: SearchFile, after: SearchFile) -> bool {
    after@ == (renamed(hub.namespace(), before.name@), before.description@, before.query@)
}

/// A hub's saved searches, each renamed `<hub>/<search>` (bare for the official hub).
pub fn hub_searches(hub: &Hub, loaded: &Vec<SearchFile>) -> (r: Vec<SearchFile>)
    ensures
        r@.len() == loaded@.len(),
        forall|i: int|
            0 <= i < r@.len() ==> search_under(hub@, loaded@[i], #[trigger] r@[i]),
{
    let mut out: Vec<SearchFile> = Vec::new();
    for k in 0..loaded.len()
        invariant
            out@.len() == k,
            forall|i: int| 0 <= i < k ==> search_under(hub@, loaded@[i], #[trigger] out@[i]),
    {
        let file = &loaded[k];
        let name = rename(hub.namespace(), file.name.as_str());
        out.push(
            SearchFile {
                name,
                description: file.description.clone(),
                query: file.query.clone(),
            },
        );
    }
    out
}

/// The names, descriptions and schemas of library files.
pub open spec fn file_schemas(v: Seq<SchemaFile>) -> Seq<(Seq<char>, Seq<char>, Schema)> {
    v.map_values(|f: SchemaFile| (f.name@, f.description@, f.schema@))
}

pub open spec fn under_namespace(hub: HubParts, file: (Seq<char>, Seq<char>, Schema)) -> (
    Seq<char>,
    Seq<char>,
    Schema,
) {
    let name = renamed(hub.namespace(), file.0);
    (name, file.1, Schema { name, ..file.2 })
}

/// The schemas that the first `n` hubs contribute: those of the enabled ones, renamed.
pub open spec fn contributed(
    hubs: Seq<Hub>,
    loaded: Seq<Seq<(Seq<char>, Seq<char>, Schema)>>,
    n: int,
) -> Seq<(Seq<char>, Seq<char>, Schema)>
    decreases n,
{
    if n <= 0 {
        Seq::empty()
    } else if hubs[n - 1].enabled {
        contributed(hubs, loaded, n - 1) + loaded[n - 1].map_values(
            |f: (Seq<char>, Seq<char>, Schema)| under_namespace(hubs[n - 1]@, f),
        )
    } else {
        contributed(hubs, loaded, n - 1)
    }
}

/// Every enabled hub's schemas, in configured order: the hub tier of the schema library.
/// `loaded` holds what is in the cache of each configured hub.
pub fn all_hub_schemas(config: &HubConfig, loaded: &Vec<Vec<SchemaFile>>) -> (r: Vec<SchemaFile>)
    requires
        loaded@.len() == config.hubs@.len(),
    ensures
        file_schemas(r@) == contributed(
            config.hubs@,
            loaded@.map_values(|v: Vec<SchemaFile>| file_schemas(v@)),
            config.hubs@.len() as int,
        ),
{
    let ghost all = loaded@.map_values(|v: Vec<SchemaFile>| file_schemas(v@));
    let mut out: Vec<SchemaFile> = Vec::new();
    assert(file_schemas(out@) =~= contributed(config.hubs@, all, 0));
    for k in 0..config.hubs.len()
        invariant
            loaded@.len() == config.hubs@.len(),
            all == loaded@.map_values(|v: Vec<SchemaFile>| file_schemas(v@)),
            file_schemas(out@) == contributed(config.hubs@, all, k as int),
    {
        if config.hubs[k].enabled {
            let ghost before = out@;
            let ghost hub = config.hubs@[k as int]@;
            let mut own = hub_schemas(&config.hubs[k], &loaded[k]);
            let ghost mine = own@;
            out.append(&mut own);
            proof {
                let want = all[k as int].map_values(
                    |f: (Seq<char>, Seq<char>, Schema)| under_namespace(hub, f),
                );
                assert(file_schemas(mine) =~= want) by {
                    assert forall|i: int| 0 <= i < mine.len() implies #[trigger] file_schemas(
                        mine,
                    )[i] == want[i] by {
                        assert(schema_under(hub, loaded@[k as int]@[i], mine[i]));
                        assert(all[k as int] == file_schemas(loaded@[k as int]@));
                    }
                }
                assert(file_schemas(out@) =~= file_schemas(before) + file_schemas(mine));
            }
        }
    }
    out
}

// ---------------------------------------------------------------------------
// Laws
// ---------------------------------------------------------------------------

proof fn lemma_hex_distinct(i: int, j: int)
    requires
        0 <= i < 16,
        0 <= j < 16,
        hex_digit(i) == hex_digit(j),
    ensures
        i == j,
{
}

proof fn lemma_base_sixteen(n: int)
    requires
        0 <= n,
    ensures
        n / 65536 == 16 * (n / 1048576) + n / 65536 % 16,
        n / 4096 == 16 * (n / 65536) + n / 4096 % 16,
        n / 256 == 16 * (n / 4096) + n / 256 % 16,
        n / 16 == 16 * (n / 256) + n / 16 % 16,
        n == 16 * (n / 16) + n % 16,
{
    assert(n / 65536 / 16 == n / 1048576);
    assert(n / 4096 / 16 == n / 65536);
    assert(n / 256 / 16 == n / 4096);
    assert(n / 16 / 16 == n / 256);
}

proof fn lemma_coded_char_distinct(a: char, b: char)
    requires
        coded_char(a) == coded_char(b),
    ensures
        a == b,
{
    let x = coded_char(a);
    let y = coded_char(b);
    let m = a as int;
    let n = b as int;
    assert(x[1] == y[1] && x[2] == y[2] && x[3] == y[3] && x[4] == y[4] && x[5] == y[5] && x[6]
        == y[6]);
    lemma_char_code(a);
    lemma_char_code(b);
    lemma_hex_distinct(m / 1048576, n / 1048576);
    lemma_hex_distinct(m / 65536 % 16, n / 65536 % 16);
    lemma_hex_distinct(m / 4096 % 16, n / 4096 % 16);
    lemma_hex_distinct(m / 256 % 16, n / 256 % 16);
    lemma_hex_distinct(m / 16 % 16, n / 16 % 16);
    lemma_hex_distinct(m % 16, n % 16);
    lemma_base_sixteen(m);
    lemma_base_sixteen(n);
}

proof fn lemma_coded_distinct(a: Seq<char>, b: Seq<char>, first: bool)
    requires
        coded(a, first) == coded(b, first),
    ensures
        a == b,
    decreases a.len(),
{
    let x = coded(a, first);
    let y = coded(b, first);
    if a.len() == 0 || b.len() == 0 {
        if a.len() > 0 {
            assert(x[0] == folder_char(a[0], first)[0]);
        }
        if b.len() > 0 {
            assert(y[0] == folder_char(b[0], first)[0]);
        }
        assert(a =~= b);
    } else {
        let p = folder_char(a[0], first);
        let q = folder_char(b[0], first);
        assert(x[0] == p[0] && y[0] == q[0]);
        assert(p.len() == q.len());
        assert(p =~= x.take(p.len() as int));
        assert(q =~= y.take(q.len() as int));
        if p.len() == 7 {
            lemma_coded_char_distinct(a[0], b[0]);
        } else {
            assert(p[0] == q[0]);
        }
        assert(coded(a.skip(1), false) =~= x.skip(p.len() as int));
        assert(coded(b.skip(1), false) =~= y.skip(q.len() as int));
        lemma_coded_distinct(a.skip(1), b.skip(1), false);
        assert(a =~= seq![a[0]] + a.skip(1));
        assert(b =~= seq![b[0]] + b.skip(1));
    }
}

proof fn lemma_folders_distinct(a: Seq<char>, b: Seq<char>)
    requires
        hub_folder(a) == hub_folder(b),
    ensures
        a == b,
{
    reveal_strlit("%");
    if a.len() == 0 || b.len() == 0 {
        if a.len() > 0 {
            assert(coded(a, true).len() == 1);
            assert(coded(a, true)[0] == folder_char(a[0], true)[0]);
            assert(folder_char(a[0], true).len() == 1);
        }
        if b.len() > 0 {
            assert(coded(b, true).len() == 1);
            assert(coded(b, true)[0] == folder_char(b[0], true)[0]);
            assert(folder_char(b[0], true).len() == 1);
        }
        assert(a =~= b);
    } else {
        lemma_coded_distinct(a, b, true);
    }
}

/// Each character of a folder's name is a safe one or `%`, and after each `%` stands a 0 or 1.
proof fn lemma_coded_shape(name: Seq<char>, first: bool)
    ensures
        forall|k: int|
            0 <= k < coded(name, first).len() ==> is_safe(#[trigger] coded(name, first)[k]) || coded(
                name,
                first,
            )[k] == '%',
        forall|k: int|
            0 <= k < coded(name, first).len() && #[trigger] coded(name, first)[k] == '%' ==> k + 1
                < coded(name, first).len() && (coded(name, first)[k + 1] == '0' || coded(
                name,
                first,
            )[k + 1] == '1'),
        name.len() > 0 ==> coded(name, first).len() > 0,
        first && name.len() > 0 ==> coded(name, first)[0] != '.',
    decreases name.len(),
{
    if name.len() > 0 {
        let c = name[0];
        let n = c as int;
        let p = folder_char(c, first);
        let rest = coded(name.skip(1), false);
        let all = coded(name, first);
        lemma_coded_shape(name.skip(1), false);
        assert(all == p + rest);
        lemma_char_code(c);
        assert(0 <= n / 1048576 <= 1);
        lemma_hex_safe(n / 1048576);
        lemma_hex_safe(n / 65536 % 16);
        lemma_hex_safe(n / 4096 % 16);
        lemma_hex_safe(n / 256 % 16);
        lemma_hex_safe(n / 16 % 16);
        lemma_hex_safe(n % 16);
        assert forall|k: int| 0 <= k < all.len() implies is_safe(#[trigger] all[k]) || all[k]
            == '%' by {
            if k >= p.len() {
                assert(all[k] == rest[k - p.len()]);
            } else {
                assert(all[k] == p[k]);
            }
        }
        assert forall|k: int| 0 <= k < all.len() && #[trigger] all[k] == '%' implies k + 1 < all.len()
            && (all[k + 1] == '0' || all[k + 1] == '1') by {
            if k >= p.len() {
                assert(all[k] == rest[k - p.len()]);
                assert(all[k + 1] == rest[k - p.len() + 1]);
            } else {
                assert(all[k] == p[k]);
                assert(k == 0 && p.len() == 7);
                assert(all[1] == p[1]);
            }
        }
    }
}

proof fn lemma_char_code(c: char)
    ensures
        0 <= c as int <= 0x10ffff,
{
    assert(c as u32 <= 0x10ffff);
}

proof fn lemma_hex_safe(d: int)
    requires
        0 <= d < 16,
    ensures
        is_safe(hex_digit(d)),
        hex_digit(d) != '%',
        d <= 1 ==> hex_digit(d) == '0' || hex_digit(d) == '1',
{
}

/// The root of the caches does not end in a slash, so that a folder joins it below one.
proof fn lemma_cache_root(home: Seq<char>)
    ensures
        ({
            let root = user_place(Some(home), HUBS_SUBDIR@)->0;
            root.len() > 0 && root.last() != '/'
        }),
{
    reveal_strlit("hubs");
    let root = user_place(Some(home), HUBS_SUBDIR@)->0;
    assert(root.last() == 's');
}

/// A hub's snapshot is a folder right below the root of the caches: its name separates no
/// directories and is neither `.` nor `..`.
pub proof fn hub_folders_stay_in_the_cache(home: Seq<char>, name: Seq<char>)
    ensures
        ({
            let root = user_place(Some(home), HUBS_SUBDIR@)->0;
            let folder = hub_folder(name);
            &&& cache_place(Some(home), name) == Some(root + "/"@ + folder)
            &&& folder.len() > 0
            &&& !folder.contains('/')
            &&& !folder.contains('\\')
            &&& folder != "."@
            &&& folder != ".."@
        }),
{
    reveal_strlit("%");
    reveal_strlit("/");
    reveal_strlit(".");
    reveal_strlit("..");
    let root = user_place(Some(home), HUBS_SUBDIR@)->0;
    let folder = hub_folder(name);
    lemma_cache_root(home);
    lemma_coded_shape(name, true);
    if folder.contains('/') {
        let k = choose|k: int| 0 <= k < folder.len() && folder[k] == '/';
        assert(is_safe(folder[k]) || folder[k] == '%');
    }
    if folder.contains('\\') {
        let k = choose|k: int| 0 <= k < folder.len() && folder[k] == '\\';
        assert(is_safe(folder[k]) || folder[k] == '%');
    }
    assert(folder[0] != '.');
    assert(folder[0] != '/') by {
        if folder[0] == '/' {
            assert(folder.contains('/'));
        }
    }
    assert(joined(root, folder) =~= root + "/"@ + folder);
}

/// No two hubs share a folder.
pub proof fn hubs_are_cached_apart(home: Seq<char>, a: Seq<char>, b: Seq<char>)
    requires
        a != b,
    ensures
        cache_place(Some(home), a) != cache_place(Some(home), b),
{
    let root = user_place(Some(home), HUBS_SUBDIR@)->0;
    hub_folders_stay_in_the_cache(home, a);
    hub_folders_stay_in_the_cache(home, b);
    let x = root + "/"@ + hub_folder(a);
    let y = root + "/"@ + hub_folder(b);
    if x == y {
        let n = (root + "/"@).len() as int;
        assert(x.skip(n) =~= hub_folder(a));
        assert(y.skip(n) =~= hub_folder(b));
        lemma_folders_distinct(a, b);
    }
}

/// What stands beside a hub's snapshot while it is replaced is nobody's snapshot, and no two
/// hubs share it.
pub proof fn replacing_a_hub_leaves_the_others_alone(
    home: Seq<char>,
    a: Seq<char>,
    b: Seq<char>,
    side: Side,
)
    ensures
        side_place(Some(home), a, side) != cache_place(Some(home), b),
        a != b ==> side_place(Some(home), a, side) != side_place(Some(home), b, side),
        side_place(Some(home), a, Side::Incoming) != side_place(Some(home), b, Side::Outgoing),
{
    reveal_strlit("%");
    reveal_strlit("/");
    reveal_strlit("%incoming");
    reveal_strlit("%outgoing");
    let root = user_place(Some(home), HUBS_SUBDIR@)->0;
    let n = (root + "/"@).len() as int;
    hub_folders_stay_in_the_cache(home, a);
    hub_folders_stay_in_the_cache(home, b);
    let mark = side.mark();
    let x = side_place(Some(home), a, side)->0;
    let y = cache_place(Some(home), b)->0;
    assert(x.skip(n) =~= hub_folder(a) + mark);
    assert(y.skip(n) =~= hub_folder(b));
    if x == y {
        let k = hub_folder(a).len() as int;
        let whole = hub_folder(a) + mark;
        assert(whole[k] == mark[0] && whole[k + 1] == mark[1]);
        lemma_coded_shape(b, true);
        assert(hub_folder(b)[k] == '%');
    }
    if a != b {
        hubs_are_cached_apart(home, a, b);
        let z = side_place(Some(home), b, side)->0;
        if x == z {
            assert(x.take(x.len() - 9) =~= cache_place(Some(home), a)->0);
            assert(z.take(z.len() - 9) =~= cache_place(Some(home), b)->0);
        }
    }
    let come = side_place(Some(home), a, Side::Incoming)->0;
    let go = side_place(Some(home), b, Side::Outgoing)->0;
    if come == go {
        assert(come[come.len() - 8] == 'i');
        assert(go[go.len() - 8] == 'o');
    }
}

/// No two hubs share a name.
pub open spec fn hub_names_unique(hubs: Seq<Hub>) -> bool {
    forall|i: int, j: int|
        0 <= i < j < hubs.len() ==> (#[trigger] hubs[i]).name@ != (#[trigger] hubs[j]).name@
}

/// Adding keeps hub names unique.
pub proof fn adding_keeps_names_unique(hubs: Seq<Hub>, hub: Hub)
    requires
        hub_names_unique(hubs),
        add_refusal(hubs, hub@.name) is None,
    ensures
        hub_names_unique(hubs.push(hub)),
        has_hub(hubs.push(hub), hub@.name),
        add_refusal(hubs.push(hub), hub@.name) is Some,
{
    lemma_hub_index(hubs, hub.name@, 0);
    let more = hubs.push(hub);
    lemma_hub_index(more, hub.name@, 0);
    if hub_index(more, hub.name@, 0) >= more.len() {
        assert(more[hubs.len() as int].name@ == hub.name@);
    }
}

/// A hub that is removed is gone, where names are unique.
pub proof fn removed_hubs_are_forgotten(hubs: Seq<Hub>, name: Seq<char>)
    requires
        hub_names_unique(hubs),
        has_hub(hubs, name),
    ensures
        !has_hub(hubs.remove(hub_index(hubs, name, 0)), name),
        hub_names_unique(hubs.remove(hub_index(hubs, name, 0))),
{
    lemma_hub_index(hubs, name, 0);
    let i = hub_index(hubs, name, 0);
    let fewer = hubs.remove(i);
    lemma_hub_index(fewer, name, 0);
    let k = hub_index(fewer, name, 0);
    if k < fewer.len() {
        let at = if k < i {
            k
        } else {
            k + 1
        };
        assert(fewer[k] == hubs[at]);
    }
    assert forall|a: int, b: int| 0 <= a < b < fewer.len() implies (#[trigger] fewer[a]).name@ != (
    #[trigger] fewer[b]).name@ by {
        let x = if a < i {
            a
        } else {
            a + 1
        };
        let y = if b < i {
            b
        } else {
            b + 1
        };
        assert(fewer[a] == hubs[x] && fewer[b] == hubs[y]);
    }
}

/// Items of two differently named hubs never share a name, where a hub's name holds no slash;
/// and a hub keeps its own items apart.
pub proof fn namespaces_never_collide(
    hub_a: Seq<char>,
    name_a: Seq<char>,
    hub_b: Seq<char>,
    name_b: Seq<char>,
)
    requires
        !hub_a.contains('/'),
        !hub_b.contains('/'),
        namespaced_name(hub_a, name_a) == namespaced_name(hub_b, name_b),
    ensures
        hub_a == hub_b,
        name_a == name_b,
{
    reveal_strlit("/");
    let a = namespaced_name(hub_a, name_a);
    let b = namespaced_name(hub_b, name_b);
    assert(a[hub_a.len() as int] == '/');
    assert(b[hub_b.len() as int] == '/');
    if hub_a.len() < hub_b.len() {
        assert(hub_b[hub_a.len() as int] == b[hub_a.len() as int]);
        assert(hub_b.contains('/'));
    }
    if hub_b.len() < hub_a.len() {
        assert(hub_a[hub_b.len() as int] == a[hub_b.len() as int]);
        assert(hub_a.contains('/'));
    }
    assert(hub_a =~= a.take(hub_a.len() as int));
    assert(hub_b =~= b.take(hub_b.len() as int));
    assert(name_a =~= a.skip(hub_a.len() as int + 1));
    assert(name_b =~= b.skip(hub_b.len() as int + 1));
}

/// The official hub's items keep their bare names, and every other hub's do not.
pub proof fn only_the_official_hub_keeps_bare_names(hub: HubParts, name: Seq<char>)
    ensures
        hub.official ==> renamed(hub.namespace(), name) == name,
        !hub.official ==> renamed(hub.namespace(), name) != name,
{
    reveal_strlit("/");
    if !hub.official {
        assert(renamed(hub.namespace(), name).len() == hub.name.len() + 1 + name.len());
    }
}

/// The official hub is seeded once: seeding again changes nothing.
pub proof fn seeding_again_changes_nothing(
    before: HubConfig,
    first: HubConfig,
    second: HubConfig,
    added_first: bool,
    added_second: bool,
)
    requires
        official_seeded(before, first, added_first),
        official_seeded(first, second, added_second),
    ensures
        !added_second,
        second == first,
{
    if added_first {
        assert(first.hubs@[first.hubs@.len() - 1]@.official);
    }
}

/// The official hub, once removed, is not seeded again.
pub proof fn a_removed_official_hub_stays_away(
    before: HubConfig,
    name: Seq<char>,
    after: HubConfig,
    hub: Hub,
    later: HubConfig,
    added: bool,
)
    requires
        hub_removed(before, name, after, hub),
        hub.official,
        official_seeded(after, later, added),
    ensures
        !added,
        later == after,
{
}

/// Adding the official repo back, however it is spelled, lifts the tombstone.
pub proof fn adding_the_official_repo_lifts_its_tombstone(
    before: HubConfig,
    hub: Hub,
    after: HubConfig,
)
    requires
        hub_added(before, hub, after),
        hub.official || is_official(hub@.url),
    ensures
        !after.official_removed,
{
}

/// A user's own hub of the official name is left in place: nothing is seeded over it.
pub proof fn a_taken_name_blocks_the_seed(before: HubConfig, after: HubConfig, added: bool)
    requires
        official_seeded(before, after, added),
        has_hub(before.hubs@, OFFICIAL_HUB_NAME@),
    ensures
        !added,
        after == before,
{
}

/// A hub is synced by itself when it is enabled and was never synced, or last at least a day
/// ago, or when nobody can tell.
pub proof fn an_enabled_hub_is_due_after_a_day(hub: Hub, now: Moment)
    requires
        hub@.last_synced is Some ==> match elapsed(
            hub@.last_synced->0,
            now.seconds,
            now.nanos,
        ) {
            Some((_, nanos)) => -1_000_000_000 < nanos < 1_000_000_000,
            None => true,
        },
    ensures
        is_due(now)(hub) <==> hub.enabled && match hub@.last_synced {
            None => true,
            Some(stamp) => match elapsed(stamp, now.seconds, now.nanos) {
                None => true,
                Some((seconds, nanos)) => seconds * 1_000_000_000 + nanos >= 24 * 60 * 60
                    * 1_000_000_000,
            },
        },
{
    if let Some(stamp) = hub@.last_synced {
        old_is_as_long_ago_as_the_limit(stamp, now, AUTO_SYNC_TTL);
    }
}

/// Whether a schema is one that hub `k` publishes: under its own name where the hub is the
/// official one, and behind the hub's name and a slash where it is not.
pub open spec fn publishes(
    hubs: Seq<Hub>,
    loaded: Seq<Seq<(Seq<char>, Seq<char>, Schema)>>,
    k: int,
    schema: (Seq<char>, Seq<char>, Schema),
) -> bool {
    exists|i: int|
        0 <= i < loaded[k].len() && {
            let file = #[trigger] loaded[k][i];
            let name = if hubs[k].official {
                file.0
            } else {
                hubs[k].name@ + "/"@ + file.0
            };
            schema == (name, file.1, Schema { name, ..file.2 })
        }
}

/// What the hubs contribute is what the enabled ones publish; a hub that is off contributes
/// nothing.
pub proof fn only_enabled_hubs_contribute(
    hubs: Seq<Hub>,
    loaded: Seq<Seq<(Seq<char>, Seq<char>, Schema)>>,
    n: int,
    schema: (Seq<char>, Seq<char>, Schema),
)
    requires
        0 <= n <= hubs.len(),
        loaded.len() == hubs.len(),
    ensures
        contributed(hubs, loaded, n).contains(schema) <==> exists|k: int|
            0 <= k < n && (#[trigger] hubs[k]).enabled && publishes(hubs, loaded, k, schema),
    decreases n,
{
    if n > 0 {
        only_enabled_hubs_contribute(hubs, loaded, n - 1, schema);
        let before = contributed(hubs, loaded, n - 1);
        let all = contributed(hubs, loaded, n);
        let hub = hubs[n - 1];
        let own = loaded[n - 1].map_values(
            |f: (Seq<char>, Seq<char>, Schema)| under_namespace(hub@, f),
        );
        if hub.enabled {
            assert(all =~= before + own);
            if own.contains(schema) {
                let i = choose|i: int| 0 <= i < own.len() && own[i] == schema;
                assert(own[i] == under_namespace(hub@, loaded[n - 1][i]));
                assert(publishes(hubs, loaded, n - 1, schema));
            }
            if publishes(hubs, loaded, n - 1, schema) {
                let i = choose|i: int|
                    0 <= i < loaded[n - 1].len() && {
                        let file = #[trigger] loaded[n - 1][i];
                        let name = if hubs[n - 1].official {
                            file.0
                        } else {
                            hubs[n - 1].name@ + "/"@ + file.0
                        };
                        schema == (name, file.1, Schema { name, ..file.2 })
                    };
                assert(own[i] == schema);
                assert(all[before.len() + i] == schema);
            }
        }
        if before.contains(schema) {
            let i = choose|i: int| 0 <= i < before.len() && before[i] == schema;
            assert(all[i] == schema);
        }
        if all.contains(schema) && !before.contains(schema) {
            let i = choose|i: int| 0 <= i < all.len() && all[i] == schema;
            if i < before.len() {
                assert(before[i] == schema);
            } else {
                assert(own[i - before.len()] == schema);
            }
            assert(hubs[n - 1].enabled);
        }
        if exists|k: int|
            0 <= k < n && (#[trigger] hubs[k]).enabled && publishes(hubs, loaded, k, schema) {
            let k = choose|k: int|
                0 <= k < n && (#[trigger] hubs[k]).enabled && publishes(hubs, loaded, k, schema);
            if k < n - 1 {
                assert(before.contains(schema));
            }
        }
    }
}

} // verus!
