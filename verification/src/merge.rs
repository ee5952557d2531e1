//! Several files interleaved by time.

use crate::models::{
    entry_views, is_source_name, source_views, EntryParts, FileParts, LogEntry, LogFileModel,
    Source, SourceInfo,
};
use crate::paths::{last_name, shown_name};
use crate::sorting::sort;
use crate::text::{join, join_strs, split, strs, texts};
use crate::timestamp::{
    earliest_parts, instant, is_instant, opt_stamp, stamp_less, times_are_ordered_as_instants,
    times_are_totally_ordered, Parts, Timestamp,
};
use vstd::prelude::*;
use vstd::relations::{sorted_by, total_ordering};

verus! {

/// Where an entry goes in a merge: by its time, then its file, then its place there.
#[derive(Clone, Copy, PartialEq, Eq, Structural)]
pub struct MergeKey {
    pub stamp: Timestamp,
    pub source: u16,
    pub position: usize,
}

pub open spec fn key_leq() -> spec_fn(MergeKey, MergeKey) -> bool {
    |a: MergeKey, b: MergeKey|
        if a.stamp@ != b.stamp@ {
            stamp_less(a.stamp@, b.stamp@)
        } else if a.source != b.source {
            a.source < b.source
        } else {
            a.position <= b.position
        }
}

pub open spec fn stamp_of(p: Parts) -> Timestamp {
    Timestamp { year: p.0, month: p.1, day: p.2, hour: p.3, minute: p.4, second: p.5, nanos: p.6 }
}

/// The time of each entry of a file.
pub open spec fn stamps(file: FileParts) -> Seq<Option<Parts>> {
    file.entries.map_values(|e: EntryParts| file.time(e))
}

/// The first known time from `i` on; the earliest there is where none is known.
pub open spec fn first_known_stamp(all: Seq<Option<Parts>>, i: int) -> Parts
    decreases all.len() - i,
{
    if i >= all.len() {
        earliest_parts()
    } else if all[i] is Some {
        all[i]->0
    } else {
        first_known_stamp(all, i + 1)
    }
}

/// The time an entry is merged at: its own, else that of the entry before it in its file; the
/// first entries of a file take the file's first known time.
pub open spec fn merge_time(all: Seq<Option<Parts>>, i: int) -> Parts
    decreases i + 1,
{
    if i < 0 {
        first_known_stamp(all, 0)
    } else if all[i] is Some {
        all[i]->0
    } else {
        merge_time(all, i - 1)
    }
}

/// The keys of a file's entries, in order.
pub open spec fn file_keys(file: FileParts, source: int) -> Seq<MergeKey> {
    Seq::new(
        file.entries.len(),
        |p: int|
            MergeKey {
                stamp: stamp_of(merge_time(stamps(file), p)),
                source: source as u16,
                position: p as usize,
            },
    )
}

/// The keys of all entries of the first `n` files.
pub open spec fn merge_keys(files: Seq<FileParts>, n: int) -> Seq<MergeKey>
    decreases n,
{
    if n <= 0 {
        Seq::empty()
    } else {
        merge_keys(files, n - 1) + file_keys(files[n - 1], n - 1)
    }
}

/// The order in which the entries of several files are shown.
pub open spec fn merge_order(files: Seq<FileParts>) -> Seq<MergeKey> {
    merge_keys(files, files.len() as int).sort_by(key_leq())
}

/// The entry that a key stands for, numbered by its place in the merge.
pub open spec fn merged_entry(files: Seq<FileParts>, key: MergeKey, index: int) -> EntryParts {
    let entry = files[key.source as int].entries[key.position as int];
    (index as usize, entry.1, entry.2, key.source)
}

pub open spec fn file_views(v: Seq<&LogFileModel>) -> Seq<FileParts> {
    v.map_values(|f: &LogFileModel| f@)
}

/// Several files as one.
pub open spec fn merged(file_id: Seq<char>, files: Seq<FileParts>) -> FileParts {
    FileParts {
        file_id,
        path: Seq::empty(),
        extractor_name: Seq::empty(),
        display_name: join(files.map_values(|f: FileParts| f.display_name), " + "@),
        label: Seq::empty(),
        description: Seq::empty(),
        extractor: None,
        entries: merge_order(files).map(|i: int, k: MergeKey| merged_entry(files, k, i)),
        loaded: true,
        error: Seq::empty(),
        sources: files.map_values(
            |f: FileParts|
                Source {
                    display_name: f.display_name,
                    extractor_name: f.extractor_name,
                    extractor: f.extractor,
                },
        ),
        merged_from: files.map_values(|f: FileParts| f.file_id),
    }
}

proof fn lemma_key_order()
    ensures
        total_ordering(key_leq()),
{
    let leq = key_leq();
    assert forall|x: MergeKey, y: MergeKey| #[trigger] leq(x, y) && #[trigger] leq(
        y,
        x,
    ) implies x == y by {
        times_are_totally_ordered(x.stamp@, y.stamp@, x.stamp@);
    }
    assert forall|x: MergeKey, y: MergeKey| #[trigger] leq(x, y) || #[trigger] leq(y, x) by {
        times_are_totally_ordered(x.stamp@, y.stamp@, x.stamp@);
    }
    assert forall|x: MergeKey, y: MergeKey, z: MergeKey| #[trigger] leq(x, y) && #[trigger] leq(
        y,
        z,
    ) implies leq(x, z) by {
        times_are_totally_ordered(x.stamp@, y.stamp@, z.stamp@);
        times_are_totally_ordered(z.stamp@, x.stamp@, y.stamp@);
    }
}

proof fn lemma_keys_valid(files: Seq<FileParts>, n: int)
    requires
        0 <= n <= files.len() <= 65536,
        forall|k: int| 0 <= k < files.len() ==> (#[trigger] files[k]).entries.len() <= usize::MAX,
    ensures
        forall|i: int|
            0 <= i < merge_keys(files, n).len() ==> key_in(files, #[trigger] merge_keys(files, n)[i]),
    decreases n,
{
    if n > 0 {
        lemma_keys_valid(files, n - 1);
        let before = merge_keys(files, n - 1);
        let all = merge_keys(files, n);
        assert forall|i: int| 0 <= i < all.len() implies key_in(files, #[trigger] all[i]) by {
            if i < before.len() {
                assert(all[i] == before[i]);
            } else {
                assert(all[i] == file_keys(files[n - 1], n - 1)[i - before.len()]);
                assert(files[n - 1].entries.len() <= usize::MAX);
            }
        }
    }
}

/// Whether a key names an entry.
pub open spec fn key_in(files: Seq<FileParts>, key: MergeKey) -> bool {
    (key.source as int) < files.len() && (key.position as int) < files[key.source as int].entries.len()
}

fn key_not_behind(a: MergeKey, b: MergeKey) -> (r: bool)
    ensures
        r == key_leq()(a, b),
{
    if a.stamp.before(&b.stamp) {
        proof {
            times_are_totally_ordered(a.stamp@, b.stamp@, a.stamp@);
        }
        return true;
    }
    if b.stamp.before(&a.stamp) {
        proof {
            times_are_totally_ordered(b.stamp@, a.stamp@, b.stamp@);
        }
        return false;
    }
    proof {
        times_are_totally_ordered(a.stamp@, b.stamp@, a.stamp@);
    }
    if a.source != b.source {
        a.source < b.source
    } else {
        a.position <= b.position
    }
}

fn push_file_keys(keys: &mut Vec<MergeKey>, file: &LogFileModel, source: u16)
    ensures
        final(keys)@ == old(keys)@ + file_keys(file@, source as int),
{
    let n: usize = file.entries.len();
    let ghost all = stamps(file@);
    let mut times: Vec<Option<Timestamp>> = Vec::new();
    for i in 0..n
        invariant
            n == file.entries@.len(),
            all == stamps(file@),
            times@.len() == i,
            forall|j: int| 0 <= j < i ==> opt_stamp(#[trigger] times@[j]) == all[j],
    {
        assert(all[i as int] == file@.time(file.entries@[i as int]@));
        times.push(file.timestamp(&file.entries[i]));
    }
    let mut last: Timestamp = Timestamp::earliest();
    let mut found = false;
    let mut k: usize = 0;
    while k < n && !found
        invariant
            n == all.len(),
            times@.len() == n,
            forall|j: int| 0 <= j < n ==> opt_stamp(#[trigger] times@[j]) == all[j],
            k <= n,
            !found ==> first_known_stamp(all, 0) == first_known_stamp(all, k as int) && last@
                == earliest_parts(),
            found ==> last@ == first_known_stamp(all, 0),
        decreases n - k,
    {
        if let Some(t) = times[k] {
            assert(opt_stamp(times@[k as int]) == all[k as int]);
            last = t;
            found = true;
        } else {
            assert(opt_stamp(times@[k as int]) == all[k as int]);
        }
        k = k + 1;
    }
    let ghost before = keys@;
    assert(before + file_keys(file@, source as int).take(0) =~= before);
    for i in 0..n
        invariant
            n == all.len(),
            all == stamps(file@),
            n == file@.entries.len(),
            times@.len() == n,
            forall|j: int| 0 <= j < n ==> opt_stamp(#[trigger] times@[j]) == all[j],
            last@ == merge_time(all, i - 1),
            keys@ == before + file_keys(file@, source as int).take(i as int),
    {
        assert(opt_stamp(times@[i as int]) == all[i as int]);
        if let Some(t) = times[i] {
            last = t;
        }
        assert(last == stamp_of(merge_time(all, i as int)));
        keys.push(MergeKey { stamp: last, source, position: i });
        assert(keys@ =~= before + file_keys(file@, source as int).take(i + 1));
    }
    assert(file_keys(file@, source as int).take(n as int) =~= file_keys(file@, source as int));
}

/// Interleave several loaded files into one model ordered by timestamp.
///
/// An entry without a time of its own stays next to the line before it in its own file. Ties go
/// by file, then by the order in the file. An entry's source is held in 16 bits, so no more
/// files than that can name are merged.
pub fn merge_files(file_id: &str, files: &[&LogFileModel]) -> (r: LogFileModel)
    requires
        files@.len() <= 65536,
    ensures
        r@ == merged(file_id@, file_views(files@)),
{
    let ghost all = file_views(files@);
    let mut names: Vec<&str> = Vec::new();
    let mut sources: Vec<SourceInfo> = Vec::new();
    let mut ids: Vec<String> = Vec::new();
    let mut keys: Vec<MergeKey> = Vec::new();
    let ghost want = merged(file_id@, all);
    let ghost want_names = all.map_values(|f: FileParts| f.display_name);
    for i in 0..files.len()
        invariant
            files@.len() <= 65536,
            all == file_views(files@),
            want == merged(file_id@, all),
            want_names == all.map_values(|f: FileParts| f.display_name),
            strs(names@) == want_names.take(i as int),
            source_views(sources@) == want.sources.take(i as int),
            texts(ids@) == want.merged_from.take(i as int),
            keys@ == merge_keys(all, i as int),
            forall|k: int| 0 <= k < i ==> (#[trigger] all[k]).entries.len() <= usize::MAX,
    {
        let file = files[i];
        assert(all[i as int] == file@);
        let n: usize = file.entries.len();
        let ghost n0 = strs(names@);
        let ghost s0 = source_views(sources@);
        let ghost i0 = texts(ids@);
        names.push(file.display_name.as_str());
        let extractor = match &file.extractor {
            Some(e) => Some(e.clone()),
            None => None,
        };
        let source = SourceInfo {
            display_name: file.display_name.clone(),
            extractor_name: file.extractor_name.clone(),
            extractor,
        };
        let ghost source_view = source@;
        sources.push(source);
        ids.push(file.file_id.clone());
        push_file_keys(&mut keys, file, i as u16);
        assert(strs(names@) =~= n0.push(all[i as int].display_name));
        assert(source_views(sources@) =~= s0.push(source_view));
        assert(texts(ids@) =~= i0.push(all[i as int].file_id));
        assert(strs(names@) =~= want_names.take(i + 1));
        assert(source_views(sources@) =~= want.sources.take(i + 1));
        assert(texts(ids@) =~= want.merged_from.take(i + 1));
    }
    let f = |a: MergeKey, b: MergeKey| -> (o: bool)
        ensures
            o == key_leq()(a, b),
        { key_not_behind(a, b) };
    proof {
        lemma_key_order();
    }
    let ordered = sort(&keys, f, Ghost(key_leq()));
    proof {
        lemma_keys_valid(all, all.len() as int);
        assert forall|i: int| 0 <= i < ordered@.len() implies key_in(all, #[trigger] ordered@[i]) by {
            broadcast use vstd::seq_lib::group_to_multiset_ensures;

            assert(ordered@.contains(ordered@[i]));
            assert(keys@.to_multiset().count(ordered@[i]) > 0);
            assert(keys@.contains(ordered@[i]));
            let m = choose|m: int| 0 <= m < keys@.len() && keys@[m] == ordered@[i];
            assert(key_in(all, keys@[m]));
        }
    }
    let mut entries: Vec<LogEntry> = Vec::new();
    for i in 0..ordered.len()
        invariant
            all == file_views(files@),
            want == merged(file_id@, all),
            ordered@ == merge_order(all),
            forall|k: int| 0 <= k < ordered@.len() ==> key_in(all, #[trigger] ordered@[k]),
            entry_views(entries@) == want.entries.take(i as int),
    {
        let key = ordered[i];
        assert(key_in(all, ordered@[i as int]));
        let file = files[key.source as usize];
        assert(all[key.source as int] == file@);
        let entry = &file.entries[key.position];
        assert(file@.entries[key.position as int] == entry@);
        let ghost before = entry_views(entries@);
        let fresh = LogEntry {
            index: i,
            line_no: entry.line_no,
            raw: entry.raw.clone(),
            source: key.source,
        };
        let ghost added = fresh@;
        entries.push(fresh);
        assert(entry_views(entries@) =~= before.push(added));
        assert(want.entries[i as int] == added);
        assert(entry_views(entries@) =~= want.entries.take(i + 1));
    }
    let shown = join_strs(names.as_slice(), " + ");
    assert(strs(names@) =~= want_names);
    let mut r = LogFileModel::new(file_id, "", "", shown.as_str(), None);
    r.sources = sources;
    r.merged_from = ids;
    r.entries = entries;
    r.loaded = true;
    proof {
        lemma_empty_path();
        assert(r@.entries =~= want.entries);
        assert(r@.sources =~= want.sources);
        assert(r@.merged_from =~= want.merged_from);
        assert(r@.path =~= want.path);
        assert(r@.extractor_name =~= want.extractor_name);
        assert(r@.display_name =~= want.display_name);
        assert(r@ =~= want);
    }
    r
}

proof fn lemma_empty_path()
    ensures
        ""@ == Seq::<char>::empty(),
        shown_name(""@) == Seq::<char>::empty(),
{
    reveal_strlit("");
    let none = Seq::<char>::empty();
    assert(""@ =~= none);
    let parts = split(none, '/');
    assert(parts =~= seq![none]);
    assert(parts.drop_last().len() == 0);
    assert(last_name(parts.drop_last()) is None);
}

/// A merge shows every entry of every file exactly once, in order of merge time.
pub proof fn merging_orders_every_entry_once(files: Seq<FileParts>)
    ensures
        sorted_by(merge_order(files), key_leq()),
        merge_order(files).to_multiset() == merge_keys(files, files.len() as int).to_multiset(),
        merge_order(files).len() == merge_keys(files, files.len() as int).len(),
{
    lemma_key_order();
    let keys = merge_keys(files, files.len() as int);
    keys.lemma_sort_by_ensures(key_leq());
    broadcast use vstd::seq_lib::group_to_multiset_ensures;

    assert(merge_order(files).to_multiset().len() == keys.to_multiset().len());
}

/// Entries of one file that are merged at the same time keep the order they have there, and of
/// two files the one named first goes first.
pub proof fn equal_times_keep_the_order(files: Seq<FileParts>, i: int, j: int)
    requires
        0 <= i < j < merge_order(files).len(),
        merge_order(files)[i].stamp == merge_order(files)[j].stamp,
    ensures
        merge_order(files)[i].source < merge_order(files)[j].source || (merge_order(
            files,
        )[i].source == merge_order(files)[j].source && merge_order(files)[i].position
            <= merge_order(files)[j].position),
{
    merging_orders_every_entry_once(files);
    assert(key_leq()(merge_order(files)[i], merge_order(files)[j]));
}

/// An entry without a time of its own is merged at the time of the one before it.
pub proof fn timeless_entries_stay_with_their_predecessor(all: Seq<Option<Parts>>, i: int)
    requires
        0 < i < all.len(),
        all[i] is None,
    ensures
        merge_time(all, i) == merge_time(all, i - 1),
{
}

/// The entries at the head of a file that have no time are merged at the file's first known one.
pub proof fn leading_entries_borrow_the_first_time(all: Seq<Option<Parts>>, i: int, first: int)
    requires
        0 <= i <= first < all.len(),
        all[first] is Some,
        forall|k: int| 0 <= k < first ==> (#[trigger] all[k]) is None,
    ensures
        merge_time(all, i) == all[first]->0,
{
    lemma_first_known(all, 0, first);
    if i < first {
        lemma_leading_time(all, i);
    }
}

proof fn lemma_first_known(all: Seq<Option<Parts>>, from: int, first: int)
    requires
        0 <= from <= first < all.len(),
        all[first] is Some,
        forall|k: int| 0 <= k < first ==> (#[trigger] all[k]) is None,
    ensures
        first_known_stamp(all, from) == all[first]->0,
    decreases first - from,
{
    if from < first {
        assert(all[from] is None);
        lemma_first_known(all, from + 1, first);
    }
}

proof fn lemma_leading_time(all: Seq<Option<Parts>>, i: int)
    requires
        0 <= i < all.len(),
        forall|k: int| 0 <= k <= i ==> (#[trigger] all[k]) is None,
    ensures
        merge_time(all, i) == first_known_stamp(all, 0),
    decreases i,
{
    assert(all[i] is None);
    if i > 0 {
        lemma_leading_time(all, i - 1);
    } else {
        assert(merge_time(all, -1) == first_known_stamp(all, 0));
    }
}

/// The key of one entry of one file.
pub open spec fn entry_key(files: Seq<FileParts>, source: int, position: int) -> MergeKey {
    file_keys(files[source], source)[position]
}

/// The keys of the first `n` files stand for their entries, each entry once.
proof fn lemma_keys_stand_for_entries(files: Seq<FileParts>, n: int)
    requires
        0 <= n <= files.len() <= 65536,
        forall|k: int| 0 <= k < files.len() ==> (#[trigger] files[k]).entries.len() <= usize::MAX,
    ensures
        merge_keys(files, n).no_duplicates(),
        forall|i: int|
            0 <= i < merge_keys(files, n).len() ==> {
                let key = #[trigger] merge_keys(files, n)[i];
                &&& (key.source as int) < n
                &&& key == entry_key(files, key.source as int, key.position as int)
            },
        forall|s: int, p: int|
            0 <= s < n && 0 <= p < files[s].entries.len() ==> merge_keys(files, n).contains(
                #[trigger] entry_key(files, s, p),
            ),
    decreases n,
{
    if n > 0 {
        lemma_keys_stand_for_entries(files, n - 1);
        let before = merge_keys(files, n - 1);
        let added = file_keys(files[n - 1], n - 1);
        let all = merge_keys(files, n);
        assert(files[n - 1].entries.len() <= usize::MAX);
        assert forall|i: int| 0 <= i < all.len() implies {
            let key = #[trigger] all[i];
            &&& (key.source as int) < n
            &&& key == entry_key(files, key.source as int, key.position as int)
        } by {
            if i < before.len() {
                assert(all[i] == before[i]);
            } else {
                assert(all[i] == added[i - before.len()]);
            }
        }
        assert forall|i: int, j: int| 0 <= i < j < all.len() implies all[i] != all[j] by {
            if j < before.len() {
                assert(all[i] == before[i] && all[j] == before[j]);
            } else {
                assert(all[j] == added[j - before.len()]);
                if i < before.len() {
                    assert(all[i] == before[i]);
                } else {
                    assert(all[i] == added[i - before.len()]);
                }
            }
        }
        assert forall|s: int, p: int|
            0 <= s < n && 0 <= p < files[s].entries.len() implies all.contains(
            #[trigger] entry_key(files, s, p),
        ) by {
            let key = entry_key(files, s, p);
            if s < n - 1 {
                assert(before.contains(key));
                let i = choose|i: int| 0 <= i < before.len() && before[i] == key;
                assert(all[i] == key);
            } else {
                assert(all[before.len() + p] == key);
            }
        }
    }
}

/// An entry without a time of its own is shown right behind the one before it in its file,
/// whatever the other files hold.
pub proof fn timeless_entries_follow_their_predecessor(
    files: Seq<FileParts>,
    s: int,
    p: int,
    i: int,
)
    requires
        files.len() <= 65536,
        forall|k: int| 0 <= k < files.len() ==> (#[trigger] files[k]).entries.len() <= usize::MAX,
        0 <= s < files.len(),
        0 < p < files[s].entries.len(),
        stamps(files[s])[p] is None,
        0 <= i < merge_order(files).len(),
        merge_order(files)[i] == entry_key(files, s, p - 1),
    ensures
        i + 1 < merge_order(files).len(),
        merge_order(files)[i + 1] == entry_key(files, s, p),
{
    let keys = merge_keys(files, files.len() as int);
    let order = merge_order(files);
    merging_orders_every_entry_once(files);
    lemma_keys_stand_for_entries(files, files.len() as int);
    keys.lemma_multiset_has_no_duplicates();
    order.lemma_multiset_has_no_duplicates_conv();
    let here = entry_key(files, s, p - 1);
    let next = entry_key(files, s, p);
    vstd::seq_lib::to_multiset_contains(keys, next);
    vstd::seq_lib::to_multiset_contains(order, next);
    let j = choose|j: int| 0 <= j < order.len() && order[j] == next;
    let leq = key_leq();
    assert(files[s].entries.len() <= usize::MAX);
    timeless_entries_stay_with_their_predecessor(stamps(files[s]), p);
    assert(next.stamp == here.stamp && next.source == here.source && next.position == p);
    if j < i {
        assert(leq(order[j], order[i]));
    }
    if j > i + 1 {
        let between = order[i + 1];
        assert(leq(order[i], between));
        assert(leq(between, order[j]));
        times_are_totally_ordered(here.stamp@, between.stamp@, here.stamp@);
        vstd::seq_lib::to_multiset_contains(order, between);
        vstd::seq_lib::to_multiset_contains(keys, between);
        assert(between == entry_key(files, s, between.position as int));
        assert(between == here || between == next);
    }
}

/// The time of the entry that stands at `i` of a merge.
pub open spec fn shown_time(files: Seq<FileParts>, i: int) -> Option<Parts> {
    let key = merge_order(files)[i];
    let file = files[key.source as int];
    file.time(file.entries[key.position as int])
}

/// Time never runs back in a merge: of two entries with times of their own the one that is
/// shown first names no later instant.
pub proof fn a_merge_runs_forward(files: Seq<FileParts>, i: int, j: int)
    requires
        files.len() <= 65536,
        forall|k: int| 0 <= k < files.len() ==> (#[trigger] files[k]).entries.len() <= usize::MAX,
        0 <= i < j < merge_order(files).len(),
        shown_time(files, i) is Some,
        shown_time(files, j) is Some,
        is_instant(shown_time(files, i)->0),
        is_instant(shown_time(files, j)->0),
    ensures
        instant(shown_time(files, i)->0) <= instant(shown_time(files, j)->0),
{
    let order = merge_order(files);
    merging_orders_every_entry_once(files);
    lemma_shown_at(files, i);
    lemma_shown_at(files, j);
    assert(key_leq()(order[i], order[j]));
    let a = shown_time(files, i)->0;
    let b = shown_time(files, j)->0;
    times_are_ordered_as_instants(a, b);
    times_are_ordered_as_instants(b, a);
    times_are_totally_ordered(a, b, a);
}

proof fn lemma_shown_at(files: Seq<FileParts>, i: int)
    requires
        files.len() <= 65536,
        forall|k: int| 0 <= k < files.len() ==> (#[trigger] files[k]).entries.len() <= usize::MAX,
        0 <= i < merge_order(files).len(),
    ensures
        shown_time(files, i) is Some ==> merge_order(files)[i].stamp@ == shown_time(files, i)->0,
{
    let keys = merge_keys(files, files.len() as int);
    let order = merge_order(files);
    merging_orders_every_entry_once(files);
    lemma_keys_stand_for_entries(files, files.len() as int);
    lemma_keys_valid(files, files.len() as int);
    let key = order[i];
    assert(order.contains(key));
    vstd::seq_lib::to_multiset_contains(order, key);
    vstd::seq_lib::to_multiset_contains(keys, key);
    let k = choose|k: int| 0 <= k < keys.len() && keys[k] == key;
    assert(key_in(files, keys[k]));
    let s = key.source as int;
    let p = key.position as int;
    assert(key == entry_key(files, s, p));
    assert(stamps(files[s])[p] == files[s].time(files[s].entries[p]));
}

/// A merge shows each entry as its file holds it: its text, its line and its time, under the
/// number of its place and with the file that it came from; and every entry of every file is
/// shown.
pub proof fn a_merge_shows_the_entries_of_its_files(
    file_id: Seq<char>,
    files: Seq<FileParts>,
    i: int,
)
    requires
        files.len() <= 65536,
        forall|k: int| 0 <= k < files.len() ==> (#[trigger] files[k]).entries.len() <= usize::MAX,
        forall|k: int| 0 <= k < files.len() ==> (#[trigger] files[k]).sources.len() == 0,
        forall|k: int|
            0 <= k < files.len() ==> ((#[trigger] files[k]).extractor is Some ==> !is_source_name(
                files[k].extractor->0.timestamp_field,
            )),
        0 <= i < merged(file_id, files).entries.len() <= usize::MAX,
    ensures
        ({
            let whole = merged(file_id, files);
            let shown = whole.entries[i];
            let source = files[shown.3 as int];
            &&& (shown.3 as int) < files.len()
            &&& shown.0 == i
            &&& exists|p: int|
                0 <= p < source.entries.len() && shown.1 == (#[trigger] source.entries[p]).1
                    && shown.2 == source.entries[p].2 && whole.time(shown) == source.time(
                    source.entries[p],
                )
            &&& whole.schema_for(shown) == source.extractor
            &&& whole.source_name(shown) == Some(source.display_name)
        }),
        forall|s: int, p: int|
            0 <= s < files.len() && 0 <= p < files[s].entries.len() ==> is_shown(
                merged(file_id, files),
                s,
                #[trigger] files[s].entries[p],
            ),
{
    let whole = merged(file_id, files);
    let order = merge_order(files);
    let keys = merge_keys(files, files.len() as int);
    merging_orders_every_entry_once(files);
    lemma_keys_stand_for_entries(files, files.len() as int);
    lemma_keys_valid(files, files.len() as int);
    let key = order[i];
    assert(order.contains(key));
    vstd::seq_lib::to_multiset_contains(order, key);
    vstd::seq_lib::to_multiset_contains(keys, key);
    let k = choose|k: int| 0 <= k < keys.len() && keys[k] == key;
    assert(key_in(files, keys[k]));
    let shown = whole.entries[i];
    let source = files[key.source as int];
    let held = source.entries[key.position as int];
    assert(shown == merged_entry(files, key, i));
    assert(source.sources.len() == 0);
    assert(whole.schema_for(shown) == source.schema_for(held));
    if let Some(schema) = source.schema_for(held) {
        lemma_same_field(whole, shown, source, held, schema.timestamp_field);
    }
    assert(whole.time(shown) == source.time(held));
    assert forall|s: int, p: int|
        0 <= s < files.len() && 0 <= p < files[s].entries.len() implies is_shown(
        whole,
        s,
        #[trigger] files[s].entries[p],
    ) by {
        let sought = entry_key(files, s, p);
        assert(keys.contains(sought));
        vstd::seq_lib::to_multiset_contains(keys, sought);
        vstd::seq_lib::to_multiset_contains(order, sought);
        let at = choose|at: int| 0 <= at < order.len() && order[at] == sought;
        assert(files[s].entries.len() <= usize::MAX);
        assert(whole.entries[at] == merged_entry(files, sought, at));
        assert(sought.source == s && sought.position == p);
    }
}

/// Whether an entry of file `source` is among those that a merge shows.
pub open spec fn is_shown(whole: FileParts, source: int, entry: EntryParts) -> bool {
    exists|i: int|
        0 <= i < whole.entries.len() && (#[trigger] whole.entries[i]).3 == source
            && whole.entries[i].1 == entry.1 && whole.entries[i].2 == entry.2
}

proof fn lemma_same_field(
    whole: FileParts,
    shown: EntryParts,
    source: FileParts,
    held: EntryParts,
    name: Seq<char>,
)
    requires
        whole.schema_for(shown) == source.schema_for(held),
        shown.2 == held.2,
        !is_source_name(name),
    ensures
        whole.field(shown, name) == source.field(held, name),
{
}

} // verus!
