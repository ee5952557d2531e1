//! What a pane shows of a file: the entries that survive, the matches, and the selection.

use crate::filters::{is_visible, FilterSet, Rule};
use crate::models::{FileParts, LogEntry, LogFileModel};
use crate::search::{passes_all, tests, Query, Test};
use crate::sorting::sort;
use std::collections::HashSet;
use vstd::prelude::*;
use vstd::relations::sorted_by;

verus! {

broadcast use vstd::std_specs::hash::group_hash_axioms;

/// Entries in the order they are shown: all up to an end, or a list.
#[derive(Debug, PartialEq, Eq)]
pub enum VisibleIndices {
    Range(usize),
    List(Vec<usize>),
}

impl View for VisibleIndices {
    type V = Seq<usize>;

    open spec fn view(&self) -> Seq<usize> {
        match *self {
            VisibleIndices::Range(end) => Seq::new(end as nat, |i: int| i as usize),
            VisibleIndices::List(v) => v@,
        }
    }
}

impl Clone for VisibleIndices {
    fn clone(&self) -> (r: Self)
        ensures
            r@ == self@,
            r is Range == *self is Range,
    {
        match self {
            VisibleIndices::Range(end) => VisibleIndices::Range(*end),
            VisibleIndices::List(v) => {
                let mut out: Vec<usize> = Vec::new();
                for i in 0..v.len()
                    invariant
                        out@ == v@.take(i as int),
                {
                    out.push(v[i]);
                }
                assert(out@ == v@);
                VisibleIndices::List(out)
            },
        }
    }
}

impl VisibleIndices {
    pub fn len(&self) -> (r: usize)
        ensures
            r == self@.len(),
    {
        match self {
            VisibleIndices::Range(end) => *end,
            VisibleIndices::List(v) => v.len(),
        }
    }

    pub fn is_empty(&self) -> (r: bool)
        ensures
            r == (self@.len() == 0),
    {
        self.len() == 0
    }

    pub fn get(&self, index: usize) -> (r: Option<usize>)
        ensures
            match r {
                Some(g) => index < self@.len() && g == self@[index as int],
                None => index >= self@.len(),
            },
    {
        match self {
            VisibleIndices::Range(end) => if index < *end {
                Some(index)
            } else {
                None
            },
            VisibleIndices::List(v) => if index < v.len() {
                Some(v[index])
            } else {
                None
            },
        }
    }

    /// All of them, in order.
    pub fn iter(&self) -> (r: Vec<usize>)
        ensures
            r@ == self@,
    {
        self.as_slice_prefix(self.len())
    }

    /// The first `max`, in order.
    pub fn as_slice_prefix(&self, max: usize) -> (r: Vec<usize>)
        ensures
            r@ == self@.take(if max < self@.len() { max as int } else { self@.len() as int }),
    {
        let n: usize = if max < self.len() {
            max
        } else {
            self.len()
        };
        let mut out: Vec<usize> = Vec::new();
        for i in 0..n
            invariant
                n <= self@.len(),
                out@ == self@.take(i as int),
        {
            match self.get(i) {
                Some(g) => {
                    out.push(g);
                },
                None => {},
            }
            assert(out@ =~= self@.take(i + 1));
        }
        out
    }
}

// ---------------------------------------------------------------------------
// Context around matches
// ---------------------------------------------------------------------------

/// Whether some match stands within `context` rows of row `i`.
pub open spec fn near(spots: Seq<usize>, context: int, i: int) -> bool {
    exists|k: int|
        0 <= k < spots.len() && (#[trigger] spots[k]) - context <= i <= spots[k] + context
}

/// Of the first `n` rows those near a match.
pub open spec fn rows_near(
    base: Seq<usize>,
    spots: Seq<usize>,
    context: int,
    n: int,
) -> Seq<usize>
    decreases n,
{
    if n <= 0 {
        Seq::empty()
    } else if near(spots, context, n - 1) {
        rows_near(base, spots, context, n - 1).push(base[n - 1])
    } else {
        rows_near(base, spots, context, n - 1)
    }
}

/// The rows shown for these matches: all of them without context, else those near a match.
pub open spec fn with_context(base: Seq<usize>, spots: Seq<usize>, context: int) -> Seq<usize> {
    if context == 0 {
        base
    } else {
        rows_near(base, spots, context, base.len() as int)
    }
}

/// Turn match positions within `base` into the visible set, widening by `context` rows on each
/// side. `match_set` holds the entries that matched, and is handed through.
pub fn apply_context(
    base: &VisibleIndices,
    match_positions: &[usize],
    match_set: HashSet<usize>,
    context: usize,
) -> (r: (VisibleIndices, HashSet<usize>))
    ensures
        r.0@ == with_context(base@, match_positions@, context as int),
        r.0 is Range == (context == 0 && *base is Range),
        r.1 == match_set,
{
    if context == 0 {
        return (base.clone(), match_set);
    }
    let ghost spots = match_positions@;
    let len: usize = base.len();
    let mut kept: Vec<bool> = Vec::new();
    for i in 0..len
        invariant
            kept@.len() == i,
            forall|j: int| 0 <= j < i ==> !kept@[j],
    {
        kept.push(false);
    }
    for k in 0..match_positions.len()
        invariant
            spots == match_positions@,
            kept@.len() == len,
            forall|j: int|
                0 <= j < len ==> #[trigger] kept@[j] == near(
                    spots.take(k as int),
                    context as int,
                    j,
                ),
    {
        let spot: usize = match_positions[k];
        let ghost before = kept@;
        let start: usize = if spot > context {
            spot - context
        } else {
            0
        };
        let mut i: usize = start;
        while i < len && (i <= spot || i - spot <= context)
            invariant
                start <= i,
                i <= len || i == start,
                start == if spot > context {
                    spot - context
                } else {
                    0
                },
                kept@.len() == len,
                before.len() == len,
                forall|j: int|
                    0 <= j < len ==> #[trigger] kept@[j] == (before[j] || (start <= j < i)),
                i <= start || i - 1 <= spot + context,
            ensures
                forall|j: int|
                    0 <= j < len ==> #[trigger] kept@[j] == (before[j] || (spot - context <= j
                        <= spot + context)),
                kept@.len() == len,
            decreases len - i,
        {
            kept.set(i, true);
            i = i + 1;
        }
        proof {
            let now = spots.take(k + 1);
            let was = spots.take(k as int);
            assert(now == was.push(spot));
            assert forall|j: int| 0 <= j < len implies #[trigger] kept@[j] == near(
                now,
                context as int,
                j,
            ) by {
                assert(before[j] == near(was, context as int, j));
                if near(was, context as int, j) {
                    let m = choose|m: int|
                        0 <= m < was.len() && (#[trigger] was[m]) - context <= j <= was[m]
                            + context;
                    assert(now[m] == was[m]);
                }
                if spot - context <= j <= spot + context {
                    assert(now[k as int] == spot);
                }
                if near(now, context as int, j) {
                    let m = choose|m: int|
                        0 <= m < now.len() && (#[trigger] now[m]) - context <= j <= now[m]
                            + context;
                    if m < k {
                        assert(was[m] == now[m]);
                    }
                }
            }
        }
    }
    assert(spots.take(spots.len() as int) == spots);
    let mut visible: Vec<usize> = Vec::new();
    for i in 0..len
        invariant
            len == base@.len(),
            kept@.len() == len,
            forall|j: int|
                0 <= j < len ==> #[trigger] kept@[j] == near(spots, context as int, j),
            visible@ == rows_near(base@, spots, context as int, i as int),
    {
        if kept[i] {
            if let Some(g) = base.get(i) {
                visible.push(g);
            }
        }
    }
    (VisibleIndices::List(visible), match_set)
}

// ---------------------------------------------------------------------------
// Filtering and matching
// ---------------------------------------------------------------------------

pub open spec fn some_enabled(rules: Seq<Rule>) -> bool {
    exists|i: int| 0 <= i < rules.len() && (#[trigger] rules[i]).enabled
}

/// Of the first `n` entries those that the rules show.
pub open spec fn shown(rules: Seq<Rule>, file: FileParts, n: int) -> Seq<usize>
    decreases n,
{
    if n <= 0 {
        Seq::empty()
    } else if is_visible(rules, file, file.entries[n - 1]) {
        shown(rules, file, n - 1).push((n - 1) as usize)
    } else {
        shown(rules, file, n - 1)
    }
}

/// The entries that survive the filters.
pub open spec fn filtered(rules: Seq<Rule>, file: FileParts) -> Seq<usize> {
    if some_enabled(rules) {
        shown(rules, file, file.entries.len() as int)
    } else {
        Seq::new(file.entries.len(), |i: int| i as usize)
    }
}

/// Whether the entry at row `p` passes every test.
pub open spec fn hit(base: Seq<usize>, all: Seq<Test>, file: FileParts, p: int) -> bool {
    (base[p] as int) < file.entries.len() && passes_all(all, file, file.entries[base[p] as int])
}

/// Of the first `n` rows those that match.
pub open spec fn hit_rows(
    base: Seq<usize>,
    all: Seq<Test>,
    file: FileParts,
    n: int,
) -> Seq<usize>
    decreases n,
{
    if n <= 0 {
        Seq::empty()
    } else if hit(base, all, file, n - 1) {
        hit_rows(base, all, file, n - 1).push((n - 1) as usize)
    } else {
        hit_rows(base, all, file, n - 1)
    }
}

/// The entries that match among the first `n` rows.
pub open spec fn hit_set(base: Seq<usize>, all: Seq<Test>, file: FileParts, n: int) -> Set<usize>
    decreases n,
{
    if n <= 0 {
        Set::empty()
    } else if hit(base, all, file, n - 1) {
        hit_set(base, all, file, n - 1).insert(base[n - 1])
    } else {
        hit_set(base, all, file, n - 1)
    }
}

pub open spec fn opt_tests(query: Option<Query>) -> Option<Seq<Test>> {
    match query {
        Some(q) => Some(tests(q.predicates@)),
        None => None,
    }
}

/// The rows a query leaves, and the entries that matched.
pub open spec fn computed(
    base: Seq<usize>,
    query: Option<Seq<Test>>,
    file: FileParts,
    context: int,
) -> (Seq<usize>, Set<usize>) {
    match query {
        None => (base, Set::empty()),
        Some(all) => (
            with_context(base, hit_rows(base, all, file, base.len() as int), context),
            hit_set(base, all, file, base.len() as int),
        ),
    }
}

/// What a pane shows of a file.
#[derive(Debug)]
pub struct ViewModel {
    pub leaf_id: String,
    pub file_id: String,
    pub filters: FilterSet,
    pub query: Option<Query>,
    pub query_text: String,
    pub context: usize,
    pub visible: VisibleIndices,
    pub match_set: HashSet<usize>,
    pub cursor: usize,
    pub scroll_y: usize,
    pub scroll_x: usize,
    /// Entries marked one by one.
    pub marked: HashSet<usize>,
    /// Visible position where an in-progress range started, if any. The live selection is
    /// `marked` together with the rows between `anchor` and `cursor`.
    pub anchor: Option<usize>,
    /// Entries that survive the filters, before any search.
    pub base: VisibleIndices,
    /// The filters and the entry count that `base` was computed for.
    pub base_signature: Option<(FilterSet, usize)>,
}

impl ViewModel {
    /// Whether `base` is held to reflect these filters and this file.
    pub open spec fn current_for(self, file: FileParts) -> bool {
        match self.base_signature {
            Some(sig) => sig.0@ == self.filters@ && sig.1 == file.entries.len(),
            None => false,
        }
    }

    /// The rows before any search, once they are up to date.
    pub open spec fn fresh_base(self, file: FileParts) -> Seq<usize> {
        if self.current_for(file) {
            self.base@
        } else {
            filtered(self.filters@, file)
        }
    }

    /// Whether the rows before any search are simply all entries, once they are up to date. No
    /// list is kept of those.
    pub open spec fn whole_base(self, file: FileParts) -> bool {
        if self.current_for(file) {
            self.base is Range
        } else {
            !some_enabled(self.filters@)
        }
    }

    /// Whether the kept rows, where they are held to reflect the file, do.
    pub open spec fn cache_holds(self, file: FileParts) -> bool {
        self.current_for(file) ==> self.base@ == filtered(self.filters@, file)
    }

    /// Whether everything but the cached rows is as it was in `other`.
    pub open spec fn same_but_base(self, other: ViewModel) -> bool {
        self == (ViewModel { base: self.base, base_signature: self.base_signature, ..other })
    }

    pub fn new(leaf_id: &str, file: &LogFileModel) -> (r: Self)
        ensures
            r.leaf_id@ == leaf_id@,
            r.file_id@ == file@.file_id,
            r.filters@ == Seq::<Rule>::empty(),
            r.query is None,
            r.query_text@ == Seq::<char>::empty(),
            r.context == 0,
            r.visible@ == filtered(Seq::empty(), file@),
            r.visible is Range,
            r.base@ == filtered(Seq::empty(), file@),
            r.base is Range,
            r.current_for(file@),
            r.match_set@ == Set::<usize>::empty(),
            r.cursor == 0,
            r.scroll_y == 0,
            r.scroll_x == 0,
            r.marked@ == Set::<usize>::empty(),
            r.anchor is None,
    {
        let mut view = ViewModel {
            leaf_id: leaf_id.to_string(),
            file_id: file.file_id.clone(),
            filters: FilterSet::default(),
            query: None,
            query_text: String::new(),
            context: 0,
            visible: VisibleIndices::Range(0),
            match_set: HashSet::new(),
            cursor: 0,
            scroll_y: 0,
            scroll_x: 0,
            marked: HashSet::new(),
            anchor: None,
            base: VisibleIndices::Range(0),
            base_signature: None,
        };
        view.rebuild(file);
        view
    }

    /// True when `base` still reflects the current filters and file.
    pub fn base_is_current(&self, file: &LogFileModel) -> (r: bool)
        ensures
            r == self.current_for(file@),
    {
        match &self.base_signature {
            Some(sig) => sig.0.same_set(&self.filters) && sig.1 == file.entries.len(),
            None => false,
        }
    }

    pub fn base(&self) -> (r: &VisibleIndices)
        ensures
            *r == self.base,
    {
        &self.base
    }

    /// Adopt a filtered index set computed elsewhere.
    pub fn install_base(&mut self, base: VisibleIndices, file: &LogFileModel)
        ensures
            final(self).same_but_base(*old(self)),
            final(self).base == base,
            final(self).current_for(file@),
    {
        self.base = base;
        self.base_signature = Some((self.filters.clone(), file.entries.len()));
    }

    fn ensure_base(&mut self, file: &LogFileModel)
        ensures
            final(self).same_but_base(*old(self)),
            final(self).current_for(file@),
            final(self).base@ == old(self).fresh_base(file@),
            final(self).base is Range == old(self).whole_base(file@),
    {
        if self.base_is_current(file) {
            return;
        }
        let n: usize = file.entries.len();
        let base = if self.filters.has_enabled_rules() {
            let prepared = self.filters.prepare();
            let mut rows: Vec<usize> = Vec::new();
            for i in 0..n
                invariant
                    n == file.entries@.len(),
                    prepared.prepared_from(self.filters@),
                    rows@ == shown(self.filters@, file@, i as int),
            {
                assert(file@.entries[i as int] == file.entries@[i as int]@);
                if prepared.visible(file, &file.entries[i]) {
                    rows.push(i);
                }
            }
            VisibleIndices::List(rows)
        } else {
            VisibleIndices::Range(n)
        };
        assert(base@ =~= filtered(self.filters@, file@));
        self.install_base(base, file);
    }

    /// The rows to show and the entries that match. Filtering is the expensive pass, so its
    /// result is kept for as long as the filters and the file stay as they are.
    pub fn compute(&mut self, file: &LogFileModel) -> (r: (VisibleIndices, HashSet<usize>))
        ensures
            final(self).same_but_base(*old(self)),
            final(self).current_for(file@),
            final(self).base@ == old(self).fresh_base(file@),
            final(self).base is Range == old(self).whole_base(file@),
            (r.0@, r.1@) == computed(
                old(self).fresh_base(file@),
                opt_tests(old(self).query),
                file@,
                old(self).context as int,
            ),
            r.0 is Range == (old(self).whole_base(file@) && (old(self).query is None || old(
                self,
            ).context == 0)),
    {
        self.ensure_base(file);
        let mut matched: HashSet<usize> = HashSet::new();
        match &self.query {
            None => (self.base.clone(), matched),
            Some(query) => {
                let ghost all = tests(query.predicates@);
                let ghost base = self.base@;
                let n: usize = self.base.len();
                let mut positions: Vec<usize> = Vec::new();
                for p in 0..n
                    invariant
                        base == self.base@,
                        n == base.len(),
                        all == tests(query.predicates@),
                        positions@ == hit_rows(base, all, file@, p as int),
                        matched@ == hit_set(base, all, file@, p as int),
                {
                    if let Some(global) = self.base.get(p) {
                        if global < file.entries.len() {
                            assert(file@.entries[global as int] == file.entries@[global as int]@);
                            if query.matches(file, &file.entries[global]) {
                                positions.push(p);
                                matched.insert(global);
                            }
                        }
                    }
                }
                apply_context(&self.base, positions.as_slice(), matched, self.context)
            },
        }
    }

    /// Take over computed rows, and bring the cursor and the scroll position back inside them.
    pub fn apply(&mut self, result: (VisibleIndices, HashSet<usize>))
        ensures
            *final(self) == (ViewModel {
                visible: result.0,
                match_set: result.1,
                cursor: held_inside(old(self).cursor, result.0@.len()),
                scroll_y: held_inside(old(self).scroll_y, result.0@.len()),
                ..*old(self)
            }),
    {
        self.visible = result.0;
        self.match_set = result.1;
        let len: usize = self.visible.len();
        if self.cursor >= len {
            self.cursor = if len > 0 {
                len - 1
            } else {
                0
            };
        }
        if self.scroll_y >= len {
            self.scroll_y = if len > 0 {
                len - 1
            } else {
                0
            };
        }
    }

    pub fn rebuild(&mut self, file: &LogFileModel)
        ensures
            ({
                let rows = computed(
                    old(self).fresh_base(file@),
                    opt_tests(old(self).query),
                    file@,
                    old(self).context as int,
                );
                &&& final(self).visible@ == rows.0
                &&& final(self).visible is Range == (old(self).whole_base(file@) && (old(
                    self,
                ).query is None || old(self).context == 0))
                &&& final(self).match_set@ == rows.1
                &&& final(self).base@ == old(self).fresh_base(file@)
                &&& final(self).base is Range == old(self).whole_base(file@)
                &&& final(self).current_for(file@)
                &&& final(self).cursor == held_inside(old(self).cursor, rows.0.len())
                &&& final(self).scroll_y == held_inside(old(self).scroll_y, rows.0.len())
                &&& *final(self) == (ViewModel {
                    visible: final(self).visible,
                    match_set: final(self).match_set,
                    cursor: final(self).cursor,
                    scroll_y: final(self).scroll_y,
                    base: final(self).base,
                    base_signature: final(self).base_signature,
                    ..*old(self)
                })
            }),
    {
        let result = self.compute(file);
        self.apply(result);
    }

    pub fn is_large(&self, file: &LogFileModel) -> (r: bool)
        ensures
            r == (file@.entries.len() > 150_000),
    {
        file.entries.len() > 150_000
    }

    /// The entry under the cursor.
    pub open spec fn at_cursor(self) -> Option<usize> {
        if self.cursor < self.visible@.len() {
            Some(self.visible@[self.cursor as int])
        } else {
            None
        }
    }

    pub fn current_index(&self) -> (r: Option<usize>)
        ensures
            r == self.at_cursor(),
    {
        self.visible.get(self.cursor)
    }

    pub fn current_entry<'a>(&self, file: &'a LogFileModel) -> (r: Option<&'a LogEntry>)
        ensures
            match r {
                Some(e) => self.at_cursor() is Some && self.at_cursor()->0 < file.entries@.len()
                    && *e == file.entries@[self.at_cursor()->0 as int],
                None => self.at_cursor() is None || self.at_cursor()->0 >= file.entries@.len(),
            },
    {
        match self.current_index() {
            Some(i) => if i < file.entries.len() {
                Some(&file.entries[i])
            } else {
                None
            },
            None => None,
        }
    }
}

/// `i` where it is inside `len`, else the last place, else 0.
pub open spec fn held_inside(i: usize, len: nat) -> usize {
    if i < len {
        i
    } else if len > 0 {
        (len - 1) as usize
    } else {
        0
    }
}

// ---------------------------------------------------------------------------
// Moving between matches
// ---------------------------------------------------------------------------

/// Of the first `n` rows those whose entry matched.
pub open spec fn matched_rows(visible: Seq<usize>, matched: Set<usize>, n: int) -> Seq<usize>
    decreases n,
{
    if n <= 0 {
        Seq::empty()
    } else if matched.contains(visible[n - 1]) {
        matched_rows(visible, matched, n - 1).push((n - 1) as usize)
    } else {
        matched_rows(visible, matched, n - 1)
    }
}

/// The first of `rows` from `i` on that lies behind `from`.
pub open spec fn first_behind(rows: Seq<usize>, from: usize, i: int) -> Option<usize>
    decreases rows.len() - i,
{
    if i >= rows.len() {
        None
    } else if rows[i] > from {
        Some(rows[i])
    } else {
        first_behind(rows, from, i + 1)
    }
}

/// The last of the first `n` of `rows` that lies before `from`.
pub open spec fn last_before(rows: Seq<usize>, from: usize, n: int) -> Option<usize>
    decreases n,
{
    if n <= 0 {
        None
    } else if rows[n - 1] < from {
        Some(rows[n - 1])
    } else {
        last_before(rows, from, n - 1)
    }
}

/// The next match from a row in a direction, coming round at the end.
pub open spec fn next_row(rows: Seq<usize>, from: usize, forward: bool) -> Option<usize> {
    if rows.len() == 0 {
        None
    } else if forward {
        match first_behind(rows, from, 0) {
            Some(r) => Some(r),
            None => Some(rows[0]),
        }
    } else {
        match last_before(rows, from, rows.len() as int) {
            Some(r) => Some(r),
            None => Some(rows.last()),
        }
    }
}

// ---------------------------------------------------------------------------
// Selecting
// ---------------------------------------------------------------------------

/// A row moved by `delta`, held between the first and the last.
pub open spec fn moved(cursor: usize, delta: int, len: nat) -> usize {
    if len == 0 || cursor + delta < 0 {
        0
    } else if cursor + delta >= len {
        (len - 1) as usize
    } else {
        (cursor + delta) as usize
    }
}

impl ViewModel {
    /// The rows of the in-progress range, first and last.
    pub open spec fn range(self) -> Option<(usize, usize)> {
        match self.anchor {
            Some(anchor) => if anchor <= self.cursor {
                Some((anchor, self.cursor))
            } else {
                Some((self.cursor, anchor))
            },
            None => None,
        }
    }

    /// Whether an entry stands in the in-progress range.
    pub open spec fn in_range(self, global: usize) -> bool {
        self.range() is Some && exists|p: int|
            (self.range()->0).0 <= p <= (self.range()->0).1 && p < self.visible@.len()
                && #[trigger] self.visible@[p] == global
    }

    /// Whether an entry is selected: marked, or in the range.
    pub open spec fn selects(self, global: usize) -> bool {
        self.marked@.contains(global) || self.in_range(global)
    }

    pub fn match_positions(&self) -> (r: Vec<usize>)
        ensures
            r@ == matched_rows(self.visible@, self.match_set@, self.visible@.len() as int),
    {
        let n: usize = self.visible.len();
        let mut out: Vec<usize> = Vec::new();
        for p in 0..n
            invariant
                n == self.visible@.len(),
                out@ == matched_rows(self.visible@, self.match_set@, p as int),
        {
            if let Some(g) = self.visible.get(p) {
                if self.match_set.contains(&g) {
                    out.push(p);
                }
            }
        }
        out
    }

    /// The match to go to from a row, coming round at the end.
    pub fn next_match(&self, from_pos: usize, forward: bool) -> (r: Option<usize>)
        ensures
            r == next_row(
                matched_rows(self.visible@, self.match_set@, self.visible@.len() as int),
                from_pos,
                forward,
            ),
    {
        let rows = self.match_positions();
        if rows.len() == 0 {
            return None;
        }
        if forward {
            for i in 0..rows.len()
                invariant
                    rows@ == matched_rows(
                        self.visible@,
                        self.match_set@,
                        self.visible@.len() as int,
                    ),
                    rows@.len() > 0,
                    forward,
                    first_behind(rows@, from_pos, 0) == first_behind(rows@, from_pos, i as int),
            {
                if rows[i] > from_pos {
                    return Some(rows[i]);
                }
            }
            Some(rows[0])
        } else {
            let mut n: usize = rows.len();
            while n > 0
                invariant
                    rows@ == matched_rows(
                        self.visible@,
                        self.match_set@,
                        self.visible@.len() as int,
                    ),
                    rows@.len() > 0,
                    !forward,
                    n <= rows@.len(),
                    last_before(rows@, from_pos, rows@.len() as int) == last_before(
                        rows@,
                        from_pos,
                        n as int,
                    ),
                decreases n,
            {
                if rows[n - 1] < from_pos {
                    return Some(rows[n - 1]);
                }
                n = n - 1;
            }
            Some(rows[rows.len() - 1])
        }
    }

    pub fn move_cursor(&mut self, delta: isize)
        ensures
            *final(self) == (ViewModel {
                cursor: moved(old(self).cursor, delta as int, old(self).visible@.len()),
                ..*old(self)
            }),
    {
        let len: usize = self.visible.len();
        if len == 0 {
            self.cursor = 0;
            return;
        }
        let last: usize = len - 1;
        if delta >= 0 {
            let step: usize = delta as usize;
            self.cursor = if self.cursor >= last || step > last - self.cursor {
                last
            } else {
                self.cursor + step
            };
        } else {
            let back: usize = (-(delta + 1)) as usize;
            self.cursor = if self.cursor <= back {
                0
            } else if self.cursor - back - 1 > last {
                last
            } else {
                self.cursor - back - 1
            };
        }
    }

    pub fn move_cursor_to(&mut self, position: usize)
        ensures
            *final(self) == (ViewModel {
                cursor: held_inside(position, old(self).visible@.len()),
                ..*old(self)
            }),
    {
        let len: usize = self.visible.len();
        self.cursor = if position < len {
            position
        } else if len > 0 {
            len - 1
        } else {
            0
        };
    }

    /// First and last row of the in-progress range.
    fn range_bounds(&self) -> (r: Option<(usize, usize)>)
        ensures
            r == self.range(),
    {
        match self.anchor {
            Some(anchor) => if anchor <= self.cursor {
                Some((anchor, self.cursor))
            } else {
                Some((self.cursor, anchor))
            },
            None => None,
        }
    }

    /// Whether a row is drawn as selected; a huge range costs nothing.
    pub fn is_selected(&self, position: usize, global_index: usize) -> (r: bool)
        ensures
            r == (self.marked@.contains(global_index) || (self.range() is Some && (
            self.range()->0).0 <= position <= (self.range()->0).1)),
    {
        if self.marked.contains(&global_index) {
            return true;
        }
        match self.range_bounds() {
            Some((lo, hi)) => position >= lo && position <= hi,
            None => false,
        }
    }

    pub fn has_selection(&self) -> (r: bool)
        ensures
            r == (self.marked@.len() > 0 || self.anchor is Some),
    {
        self.marked.len() > 0 || self.anchor.is_some()
    }

    /// The marked entries outside the entries between two, in no particular order.
    pub open spec fn marked_outside(self, low: usize, high: usize) -> Set<usize> {
        self.marked@.filter(|g: usize| g < low || g > high)
    }

    /// How many entries are selected, where rows hold ascending entries: the rows of the range,
    /// and the marked entries outside the window between its ends.
    pub open spec fn counted(self) -> int {
        match self.range() {
            None => self.marked@.len() as int,
            Some((lo, hi)) => {
                let len = self.visible@.len();
                let outside = if hi < len {
                    self.marked_outside(self.visible@[lo as int], self.visible@[hi as int]).len()
                } else {
                    self.marked@.len()
                };
                (hi - lo + 1) + outside
            },
        }
    }

    pub fn selection_count(&self) -> (r: usize)
        requires
            self.counted() <= usize::MAX,
        ensures
            r == self.counted(),
    {
        let (lo, hi) = match self.range_bounds() {
            Some(bounds) => bounds,
            None => {
                return self.marked.len();
            },
        };
        let outside: usize = match (self.visible.get(lo), self.visible.get(hi)) {
            (Some(low), Some(high)) => self.count_outside(low, high),
            _ => self.marked.len(),
        };
        (hi - lo + 1) + outside
    }

    fn count_outside(&self, low: usize, high: usize) -> (r: usize)
        ensures
            r == self.marked_outside(low, high).len(),
    {
        let all = members(&self.marked);
        let ghost wanted = |g: usize| g < low || g > high;
        let mut n: usize = 0;
        let ghost mut passed: Set<usize> = Set::empty();
        for i in 0..all.len()
            invariant
                all@.no_duplicates(),
                wanted == (|g: usize| g < low || g > high),
                passed == all@.take(i as int).to_set().filter(wanted),
                passed.finite(),
                n == passed.len(),
                n <= i,
        {
            let g: usize = all[i];
            proof {
                let before = all@.take(i as int);
                lemma_take_to_set(all@, i as int);
                assert(!before.to_set().contains(g)) by {
                    if before.contains(g) {
                        let m = choose|m: int| 0 <= m < before.len() && before[m] == g;
                        assert(all@[m] == all@[i as int]);
                    }
                }
                let now = before.to_set().insert(g);
                if g < low || g > high {
                    assert(now.filter(wanted) =~= passed.insert(g));
                    assert(!passed.contains(g));
                } else {
                    assert(now.filter(wanted) =~= passed);
                }
                passed = now.filter(wanted);
            }
            if g < low || g > high {
                n = n + 1;
            }
        }
        assert(all@.take(all@.len() as int) == all@);
        n
    }
}

proof fn lemma_take_to_set(all: Seq<usize>, k: int)
    requires
        0 <= k < all.len(),
    ensures
        all.take(k + 1).to_set() == all.take(k).to_set().insert(all[k]),
{
    let was = all.take(k);
    let now = all.take(k + 1);
    assert forall|x: usize| now.to_set().contains(x) == was.to_set().insert(all[k]).contains(
        x,
    ) by {
        if now.to_set().contains(x) {
            let m = choose|m: int| 0 <= m < now.len() && now[m] == x;
            if m < k {
                assert(was[m] == x);
            }
        }
        if was.to_set().contains(x) {
            let m = choose|m: int| 0 <= m < was.len() && was[m] == x;
            assert(now[m] == x);
        }
        if x == all[k] {
            assert(now[k] == x);
        }
    }
    assert(now.to_set() =~= was.to_set().insert(all[k]));
}

/// The members of a set, each once.
fn members(set: &HashSet<usize>) -> (r: Vec<usize>)
    ensures
        r@.no_duplicates(),
        r@.to_set() == set@,
{
    let mut out: Vec<usize> = Vec::new();
    for g in it: set.iter()
        invariant
            it.seq().unref().to_set() == set@,
            it.seq().no_duplicates(),
            out@ == it.seq().unref().take(it.index() as int),
            it.index() == it.seq().len() ==> out@ =~= it.seq().unref(),
    {
        out.push(*g);
        assert(out@ =~= it.seq().unref().take(it.index() as int + 1));
    }
    out
}

/// The entries of the rows `lo..=hi` that there are.
pub open spec fn row_set(visible: Seq<usize>, lo: int, hi: int) -> Set<usize>
    decreases hi - lo + 1,
{
    if hi < lo || hi < 0 {
        Set::empty()
    } else if hi < visible.len() {
        row_set(visible, lo, hi - 1).insert(visible[hi])
    } else {
        row_set(visible, lo, hi - 1)
    }
}

proof fn lemma_row_set(visible: Seq<usize>, lo: int, hi: int)
    requires
        0 <= lo,
    ensures
        forall|g: usize| #[trigger]
            row_set(visible, lo, hi).contains(g) <==> exists|p: int|
                lo <= p <= hi && p < visible.len() && #[trigger] visible[p] == g,
    decreases hi - lo + 1,
{
    if hi >= lo {
        lemma_row_set(visible, lo, hi - 1);
        assert forall|g: usize| #[trigger] row_set(visible, lo, hi).contains(g) <==> exists|p: int|
            lo <= p <= hi && p < visible.len() && #[trigger] visible[p] == g by {
            if row_set(visible, lo, hi).contains(g) {
                if row_set(visible, lo, hi - 1).contains(g) {
                    let p = choose|p: int|
                        lo <= p <= hi - 1 && p < visible.len() && #[trigger] visible[p] == g;
                    assert(lo <= p <= hi && visible[p] == g);
                } else {
                    assert(visible[hi] == g);
                }
            }
            if exists|p: int| lo <= p <= hi && p < visible.len() && #[trigger] visible[p] == g {
                let p = choose|p: int|
                    lo <= p <= hi && p < visible.len() && #[trigger] visible[p] == g;
                if p < hi {
                    assert(row_set(visible, lo, hi - 1).contains(g));
                }
            }
        }
    }
}

pub open spec fn index_leq() -> spec_fn(usize, usize) -> bool {
    |a: usize, b: usize| a <= b
}

/// Ascending, with nothing twice.
pub open spec fn ascending(v: Seq<usize>) -> bool {
    forall|i: int, j: int| 0 <= i < j < v.len() ==> v[i] < v[j]
}

/// A list in ascending order, each value once.
fn sorted_once(v: &Vec<usize>) -> (r: Vec<usize>)
    ensures
        ascending(r@),
        forall|g: usize| r@.contains(g) <==> v@.contains(g),
{
    let f = |a: usize, b: usize| -> (o: bool)
        ensures
            o == (a <= b),
        { a <= b };
    let sorted = sort(v, f, Ghost(index_leq()));
    proof {
        broadcast use vstd::seq_lib::group_to_multiset_ensures;

        assert forall|g: usize| sorted@.contains(g) <==> v@.contains(g) by {
            assert(sorted@.to_multiset().count(g) == v@.to_multiset().count(g));
        }
    }
    let mut out: Vec<usize> = Vec::new();
    for i in 0..sorted.len()
        invariant
            sorted_by(sorted@, index_leq()),
            ascending(out@),
            i > 0 ==> out@.len() > 0 && out@.last() == sorted@[i - 1],
            forall|g: usize| out@.contains(g) <==> sorted@.take(i as int).contains(g),
    {
        let x: usize = sorted[i];
        let n: usize = out.len();
        let ghost before = out@;
        assert(sorted@.take(i + 1) =~= sorted@.take(i as int).push(x));
        if n > 0 {
            assert(i > 0) by {
                assert(before.contains(before[0]));
            }
            assert(index_leq()(sorted@[i - 1], sorted@[i as int]));
        }
        if n == 0 || out[n - 1] != x {
            out.push(x);
            assert forall|g: usize| out@.contains(g) <==> sorted@.take(i + 1).contains(g) by {
                lemma_push_contains(before, x, g);
                lemma_push_contains(sorted@.take(i as int), x, g);
            }
        } else {
            assert forall|g: usize| out@.contains(g) <==> sorted@.take(i + 1).contains(g) by {
                lemma_push_contains(sorted@.take(i as int), x, g);
                assert(before[n - 1] == x);
            }
        }
    }
    assert(sorted@.take(sorted@.len() as int) =~= sorted@);
    out
}

proof fn lemma_push_contains(v: Seq<usize>, x: usize, g: usize)
    ensures
        v.push(x).contains(g) <==> v.contains(g) || x == g,
{
    let w = v.push(x);
    if w.contains(g) {
        let m = choose|m: int| 0 <= m < w.len() && w[m] == g;
        if m < v.len() {
            assert(v[m] == g);
        }
    }
    if v.contains(g) {
        let m = choose|m: int| 0 <= m < v.len() && v[m] == g;
        assert(w[m] == g);
    }
    if x == g {
        assert(w[v.len() as int] == g);
    }
}

impl ViewModel {
    /// The selected entries in ascending order.
    pub fn selected_globals(&self) -> (r: Vec<usize>)
        ensures
            ascending(r@),
            forall|g: usize| #[trigger] r@.contains(g) <==> self.selects(g),
    {
        let mut all = members(&self.marked);
        let ghost marks = all@;
        assert(forall|g: usize| marks.contains(g) <==> self.marked@.contains(g)) by {
            assert(forall|g: usize| marks.contains(g) <==> marks.to_set().contains(g));
        }
        if let Some((lo, hi)) = self.range_bounds() {
            let len: usize = self.visible.len();
            let end: usize = if hi < len {
                hi + 1
            } else {
                len
            };
            let mut p: usize = lo;
            assert(lo < end ==> marks + self.visible@.subrange(lo as int, lo as int) =~= marks);
            while p < end
                invariant
                    lo <= p,
                    p <= end || p == lo,
                    end <= self.visible@.len(),
                    lo < end ==> all@ == marks + self.visible@.subrange(lo as int, p as int),
                    lo >= end ==> all@ == marks,
                decreases end - p,
            {
                if let Some(g) = self.visible.get(p) {
                    all.push(g);
                }
                assert(all@ =~= marks + self.visible@.subrange(lo as int, p + 1));
                p = p + 1;
            }
            proof {
                assert forall|g: usize| all@.contains(g) <==> self.selects(g) by {
                    if self.in_range(g) {
                        let q = choose|q: int|
                            lo <= q <= hi && q < self.visible@.len() && #[trigger] self.visible@[q]
                                == g;
                        assert(lo <= q < end);
                        assert(all@[marks.len() + q - lo] == g);
                    }
                    if marks.contains(g) {
                        let m = choose|m: int| 0 <= m < marks.len() && marks[m] == g;
                        assert(all@[m] == g);
                    }
                    if all@.contains(g) && !marks.contains(g) {
                        let m = choose|m: int| 0 <= m < all@.len() && all@[m] == g;
                        if m < marks.len() {
                            assert(marks[m] == g);
                        }
                        assert(self.visible@[lo + m - marks.len()] == g);
                    }
                }
            }
        }
        sorted_once(&all)
    }

    pub fn clear_selection(&mut self)
        ensures
            final(self).marked@ == Set::<usize>::empty(),
            *final(self) == (ViewModel {
                marked: final(self).marked,
                anchor: None,
                ..*old(self)
            }),
    {
        self.marked.clear();
        self.anchor = None;
    }

    /// Fold an in-progress range into the marks so later moves do not resize it.
    pub fn commit_range(&mut self)
        ensures
            forall|g: usize| #[trigger]
                final(self).marked@.contains(g) <==> old(self).selects(g),
            *final(self) == (ViewModel {
                marked: final(self).marked,
                anchor: None,
                ..*old(self)
            }),
    {
        let ghost this = *self;
        if let Some((lo, hi)) = self.range_bounds() {
            let len: usize = self.visible.len();
            let mut p: usize = lo;
            proof {
                lemma_row_set(this.visible@, lo as int, lo - 1);
                assert(self.marked@.union(row_set(this.visible@, lo as int, lo - 1))
                    =~= this.marked@);
            }
            while p <= hi && p < len
                invariant
                    lo <= p,
                    len == this.visible@.len(),
                    p <= len || p == lo,
                    p <= hi + 1,
                    *self == (ViewModel { marked: self.marked, ..this }),
                    self.marked@ == this.marked@.union(
                        row_set(this.visible@, lo as int, p - 1),
                    ),
                ensures
                    p > hi || p >= len,
                    p <= len || p == lo,
                    lo <= p <= hi + 1,
                    *self == (ViewModel { marked: self.marked, ..this }),
                    self.marked@ == this.marked@.union(
                        row_set(this.visible@, lo as int, p - 1),
                    ),
                decreases len - p,
            {
                if let Some(g) = self.visible.get(p) {
                    self.marked.insert(g);
                }
                assert(self.marked@ =~= this.marked@.union(
                    row_set(this.visible@, lo as int, p as int),
                ));
                p = p + 1;
            }
            proof {
                lemma_row_set(this.visible@, lo as int, p - 1);
                assert forall|g: usize| #[trigger]
                    self.marked@.contains(g) <==> this.selects(g) by {
                    if this.in_range(g) {
                        let q = choose|q: int|
                            lo <= q <= hi && q < this.visible@.len() && #[trigger] this.visible@[q]
                                == g;
                        assert(q <= p - 1);
                        assert(row_set(this.visible@, lo as int, p - 1).contains(g));
                    }
                    if row_set(this.visible@, lo as int, p - 1).contains(g) {
                        let q = choose|q: int|
                            lo <= q <= p - 1 && q < this.visible@.len()
                                && #[trigger] this.visible@[q] == g;
                        assert(this.in_range(g));
                    }
                }
            }
        }
        self.anchor = None;
    }

    /// Anchor on first use, then grow or shrink the range as the cursor moves.
    pub fn extend_selection(&mut self, delta: isize)
        ensures
            *final(self) == if old(self).visible@.len() == 0 {
                *old(self)
            } else {
                ViewModel {
                    anchor: match old(self).anchor {
                        Some(a) => Some(a),
                        None => Some(old(self).cursor),
                    },
                    cursor: moved(old(self).cursor, delta as int, old(self).visible@.len()),
                    ..*old(self)
                }
            },
    {
        if self.visible.is_empty() {
            return;
        }
        if self.anchor.is_none() {
            self.anchor = Some(self.cursor);
        }
        self.move_cursor(delta);
    }

    /// Travel without disturbing the selection, so the next toggle can add a line that is not
    /// adjacent to the others.
    pub fn move_keeping_selection(&mut self, delta: isize)
        ensures
            forall|g: usize| #[trigger]
                final(self).marked@.contains(g) <==> old(self).selects(g),
            *final(self) == (ViewModel {
                marked: final(self).marked,
                anchor: None,
                cursor: moved(old(self).cursor, delta as int, old(self).visible@.len()),
                ..*old(self)
            }),
    {
        self.commit_range();
        self.move_cursor(delta);
    }

    /// Mark the entry under the cursor, or take its mark away.
    pub fn toggle_current(&mut self)
        ensures
            forall|g: usize| #[trigger]
                final(self).marked@.contains(g) <==> (if old(self).at_cursor() == Some(g) {
                    !old(self).selects(g)
                } else {
                    old(self).selects(g)
                }),
            *final(self) == (ViewModel {
                marked: final(self).marked,
                anchor: None,
                ..*old(self)
            }),
    {
        self.commit_range();
        if let Some(global) = self.current_index() {
            if !self.marked.remove(&global) {
                self.marked.insert(global);
            }
        }
    }
}

// ---------------------------------------------------------------------------
// Laws
// ---------------------------------------------------------------------------

/// The cursor stands on a row, or at the top of nothing.
pub open spec fn cursor_in_bounds(v: ViewModel) -> bool {
    v.cursor < v.visible@.len() || (v.visible@.len() == 0 && v.cursor == 0)
}

/// Wherever the cursor is moved to, it stands on a row, or at the top of nothing.
pub proof fn moves_stay_in_bounds(v: ViewModel, delta: int, position: usize)
    requires
        v.visible@.len() <= usize::MAX,
    ensures
        cursor_in_bounds(
            ViewModel { cursor: moved(v.cursor, delta, v.visible@.len()), ..v },
        ),
        cursor_in_bounds(
            ViewModel { cursor: held_inside(position, v.visible@.len()), ..v },
        ),
{
}

/// Once a range is committed the selection is what it was, and holds no range.
pub proof fn committing_keeps_the_selection(before: ViewModel, after: ViewModel)
    requires
        forall|g: usize| #[trigger] after.marked@.contains(g) <==> before.selects(g),
        after.anchor is None,
    ensures
        forall|g: usize| #[trigger] after.selects(g) <==> before.selects(g),
{
}

/// Toggling twice leaves the selection as it was.
pub proof fn toggling_twice_restores(first: ViewModel, second: ViewModel, third: ViewModel)
    requires
        forall|g: usize| #[trigger]
            second.marked@.contains(g) <==> (if first.at_cursor() == Some(g) {
                !first.selects(g)
            } else {
                first.selects(g)
            }),
        second == (ViewModel { marked: second.marked, anchor: None, ..first }),
        forall|g: usize| #[trigger]
            third.marked@.contains(g) <==> (if second.at_cursor() == Some(g) {
                !second.selects(g)
            } else {
                second.selects(g)
            }),
        third == (ViewModel { marked: third.marked, anchor: None, ..second }),
    ensures
        forall|g: usize| #[trigger] third.selects(g) <==> first.selects(g),
{
    assert(second.at_cursor() == first.at_cursor());
    assert forall|g: usize| #[trigger] third.selects(g) <==> first.selects(g) by {
        assert(third.selects(g) == third.marked@.contains(g));
        assert(second.selects(g) == second.marked@.contains(g));
    }
}

/// Where no entry stands in two rows, a row is drawn as selected exactly when its entry is
/// among the selected ones.
pub proof fn rows_and_entries_agree(v: ViewModel, position: int)
    requires
        ascending(v.visible@),
        0 <= position < v.visible@.len(),
    ensures
        v.selects(v.visible@[position]) <==> (v.marked@.contains(v.visible@[position]) || (
        v.range() is Some && (v.range()->0).0 <= position <= (v.range()->0).1)),
{
    let g = v.visible@[position];
    if v.in_range(g) {
        let p = choose|p: int|
            (v.range()->0).0 <= p <= (v.range()->0).1 && p < v.visible@.len()
                && #[trigger] v.visible@[p] == g;
        if p < position {
            assert(v.visible@[p] < v.visible@[position]);
        }
        if position < p {
            assert(v.visible@[position] < v.visible@[p]);
        }
    }
    if v.range() is Some && (v.range()->0).0 <= position <= (v.range()->0).1 {
        assert(v.visible@[position] == g);
    }
}

proof fn lemma_shown_ascending(rules: Seq<Rule>, file: FileParts, n: int)
    requires
        0 <= n <= file.entries.len() <= usize::MAX,
    ensures
        ascending(shown(rules, file, n)),
        forall|i: int|
            0 <= i < shown(rules, file, n).len() ==> (#[trigger] shown(rules, file, n)[i] as int)
                < n,
    decreases n,
{
    if n > 0 {
        lemma_shown_ascending(rules, file, n - 1);
    }
}

proof fn lemma_shown_members(rules: Seq<Rule>, file: FileParts, n: int)
    requires
        0 <= n <= file.entries.len() <= usize::MAX,
    ensures
        forall|g: usize| #[trigger]
            shown(rules, file, n).contains(g) <==> (g as int) < n && is_visible(
                rules,
                file,
                file.entries[g as int],
            ),
    decreases n,
{
    if n > 0 {
        lemma_shown_members(rules, file, n - 1);
        let before = shown(rules, file, n - 1);
        assert forall|g: usize| #[trigger] shown(rules, file, n).contains(g) <==> (g as int) < n
            && is_visible(rules, file, file.entries[g as int]) by {
            if is_visible(rules, file, file.entries[n - 1]) {
                lemma_push_contains(before, (n - 1) as usize, g);
            }
            assert(before.contains(g) <==> (g as int) < n - 1 && is_visible(
                rules,
                file,
                file.entries[g as int],
            ));
        }
    }
}

/// The rows a filter leaves are the entries it shows, each once, in order.
pub proof fn filtering_keeps_the_visible_entries_in_order(rules: Seq<Rule>, file: FileParts)
    requires
        file.entries.len() <= usize::MAX,
    ensures
        ascending(filtered(rules, file)),
        forall|g: usize| #[trigger]
            filtered(rules, file).contains(g) <==> (g as int) < file.entries.len() && is_visible(
                rules,
                file,
                file.entries[g as int],
            ),
{
    let all = filtered(rules, file);
    if some_enabled(rules) {
        lemma_shown_ascending(rules, file, file.entries.len() as int);
        lemma_shown_members(rules, file, file.entries.len() as int);
    } else {
        assert forall|g: usize| #[trigger] all.contains(g) <==> (g as int) < file.entries.len()
            && is_visible(rules, file, file.entries[g as int]) by {
            if (g as int) < file.entries.len() {
                assert(all[g as int] == g);
                crate::filters::disabled_rules_hide_nothing(
                    rules,
                    file,
                    file.entries[g as int],
                );
            }
        }
    }
}

/// Whether one of the first `n` rows holds this entry.
spec fn in_first(base: Seq<usize>, n: int, g: usize) -> bool {
    exists|p: int| 0 <= p < n && #[trigger] base[p] == g
}

proof fn lemma_rows_near(base: Seq<usize>, spots: Seq<usize>, context: int, n: int)
    requires
        0 <= n <= base.len(),
        ascending(base),
    ensures
        ascending(rows_near(base, spots, context, n)),
        forall|i: int|
            0 <= i < rows_near(base, spots, context, n).len() ==> in_first(
                base,
                n,
                #[trigger] rows_near(base, spots, context, n)[i],
            ),
        forall|p: int|
            0 <= p < n && near(spots, context, p) ==> rows_near(base, spots, context, n).contains(
                #[trigger] base[p],
            ),
    decreases n,
{
    if n > 0 {
        lemma_rows_near(base, spots, context, n - 1);
        let before = rows_near(base, spots, context, n - 1);
        let all = rows_near(base, spots, context, n);
        assert forall|i: int| 0 <= i < all.len() implies in_first(base, n, #[trigger] all[i]) by {
            if i < before.len() {
                assert(all[i] == before[i]);
                let p = choose|p: int| 0 <= p < n - 1 && #[trigger] base[p] == before[i];
                assert(0 <= p < n && base[p] == all[i]);
            } else {
                assert(base[n - 1] == all[i]);
            }
        }
        assert forall|i: int, j: int| 0 <= i < j < all.len() implies all[i] < all[j] by {
            if j == before.len() {
                assert(all[i] == before[i]);
                let p = choose|p: int| 0 <= p < n - 1 && #[trigger] base[p] == before[i];
                assert(base[p] < base[n - 1]);
            } else {
                assert(before[i] < before[j]);
            }
        }
        assert forall|p: int| 0 <= p < n && near(spots, context, p) implies all.contains(
            #[trigger] base[p],
        ) by {
            if p < n - 1 {
                assert(before.contains(base[p]));
            }
            if near(spots, context, n - 1) {
                lemma_push_contains(before, base[n - 1], base[p]);
            }
        }
    }
}

/// Keeping the filtered rows changes nothing: where what is kept is right, the rows that a search
/// walks are those the filters leave, and what is kept afterwards is right again.
pub proof fn kept_rows_are_the_filtered_rows(before: ViewModel, after: ViewModel, file: FileParts)
    requires
        before.cache_holds(file),
        after.same_but_base(before),
        after.base@ == before.fresh_base(file),
    ensures
        before.fresh_base(file) == filtered(before.filters@, file),
        after.cache_holds(file),
{
}

/// Context widens each match by so many rows on either side: the rows within reach of a match
/// are shown and no others, and they keep their order.
pub proof fn context_shows_the_rows_around_matches(
    base: Seq<usize>,
    spots: Seq<usize>,
    context: int,
)
    requires
        ascending(base),
        context > 0,
    ensures
        ascending(with_context(base, spots, context)),
        forall|p: int|
            0 <= p < base.len() ==> (with_context(base, spots, context).contains(
                #[trigger] base[p],
            ) <==> near(spots, context, p)),
        forall|i: int|
            0 <= i < with_context(base, spots, context).len() ==> base.contains(
                #[trigger] with_context(base, spots, context)[i],
            ),
{
    lemma_rows_near(base, spots, context, base.len() as int);
    let all = with_context(base, spots, context);
    assert forall|i: int| 0 <= i < all.len() implies base.contains(#[trigger] all[i]) by {
        let p = choose|p: int| 0 <= p < base.len() && #[trigger] base[p] == all[i];
        assert(base[p] == all[i]);
    }
    assert forall|p: int| 0 <= p < base.len() && !near(spots, context, p) implies !all.contains(
        #[trigger] base[p],
    ) by {
        lemma_far_row(base, spots, context, base.len() as int, p);
    }
}

/// A row far from every match is not among those near one.
proof fn lemma_far_row(base: Seq<usize>, spots: Seq<usize>, context: int, n: int, p: int)
    requires
        0 <= n <= base.len(),
        0 <= p < base.len(),
        ascending(base),
        !near(spots, context, p),
    ensures
        !rows_near(base, spots, context, n).contains(base[p]),
    decreases n,
{
    if n > 0 {
        lemma_far_row(base, spots, context, n - 1, p);
        let before = rows_near(base, spots, context, n - 1);
        if near(spots, context, n - 1) {
            assert(base[p] != base[n - 1]) by {
                if p < n - 1 {
                    assert(base[p] < base[n - 1]);
                } else {
                    assert(base[n - 1] < base[p]);
                }
            }
            let all = before.push(base[n - 1]);
            if all.contains(base[p]) {
                let j = choose|j: int| 0 <= j < all.len() && all[j] == base[p];
                assert(before[j] == base[p]);
            }
        }
    }
}

proof fn lemma_row_set_len(visible: Seq<usize>, lo: int, hi: int)
    requires
        ascending(visible),
        0 <= lo,
        hi < visible.len(),
        lo <= hi + 1,
    ensures
        row_set(visible, lo, hi).finite(),
        row_set(visible, lo, hi).len() == hi - lo + 1,
    decreases hi - lo + 1,
{
    if lo <= hi {
        lemma_row_set_len(visible, lo, hi - 1);
        lemma_row_set(visible, lo, hi - 1);
        if row_set(visible, lo, hi - 1).contains(visible[hi]) {
            let p = choose|p: int|
                lo <= p <= hi - 1 && p < visible.len() && #[trigger] visible[p] == visible[hi];
            assert(visible[p] < visible[hi]);
        }
    }
}

/// The count of a selection is the number of selected entries, where every marked entry is
/// still among the rows and the range lies on rows.
pub proof fn selection_count_counts_the_selected(v: ViewModel, selected: Seq<usize>)
    requires
        ascending(v.visible@),
        ascending(selected),
        forall|g: usize| #[trigger] selected.contains(g) <==> v.selects(g),
        forall|g: usize| #[trigger] v.marked@.contains(g) ==> v.visible@.contains(g),
        v.range() is Some ==> (v.range()->0).1 < v.visible@.len(),
    ensures
        v.counted() == selected.len(),
{
    selected.unique_seq_to_set();
    match v.range() {
        None => {
            assert(selected.to_set() =~= v.marked@);
        },
        Some((lo, hi)) => {
            let low = v.visible@[lo as int];
            let high = v.visible@[hi as int];
            let rows = row_set(v.visible@, lo as int, hi as int);
            let outside = v.marked_outside(low, high);
            lemma_row_set(v.visible@, lo as int, hi as int);
            lemma_row_set_len(v.visible@, lo as int, hi as int);
            assert forall|g: usize| rows.contains(g) implies low <= g <= high by {
                let p = choose|p: int|
                    lo <= p <= hi && p < v.visible@.len() && #[trigger] v.visible@[p] == g;
                if lo < p {
                    assert(v.visible@[lo as int] < v.visible@[p]);
                }
                if p < hi {
                    assert(v.visible@[p] < v.visible@[hi as int]);
                }
            }
            assert(rows.disjoint(outside));
            assert(selected.to_set() =~= rows.union(outside)) by {
                assert forall|g: usize| selected.to_set().contains(g) == rows.union(
                    outside,
                ).contains(g) by {
                    assert(selected.contains(g) == v.selects(g));
                    if v.in_range(g) {
                        assert(rows.contains(g));
                    }
                    if rows.contains(g) {
                        assert(v.in_range(g));
                    }
                    if v.marked@.contains(g) && low <= g <= high {
                        let p = choose|p: int| 0 <= p < v.visible@.len() && v.visible@[p] == g;
                        if p < lo {
                            assert(v.visible@[p] < v.visible@[lo as int]);
                        }
                        if p > hi {
                            assert(v.visible@[hi as int] < v.visible@[p]);
                        }
                        assert(v.in_range(g));
                    }
                }
            }
            vstd::seq_lib::seq_to_set_is_finite(selected);
            assert(outside.subset_of(selected.to_set()));
            vstd::set_lib::lemma_set_subset_finite(selected.to_set(), outside);
            vstd::set_lib::lemma_set_disjoint_lens(rows, outside);
        },
    }
}

/// A row is shown with context exactly where some match is no more than so many rows away, above
/// or below.
pub proof fn context_reaches_both_ways(base: Seq<usize>, spots: Seq<usize>, context: int, p: int)
    requires
        ascending(base),
        context > 0,
        0 <= p < base.len(),
    ensures
        with_context(base, spots, context).contains(base[p]) <==> exists|k: int|
            0 <= k < spots.len() && (#[trigger] spots[k]) as int - p <= context && p
                - spots[k] as int <= context,
{
    context_shows_the_rows_around_matches(base, spots, context);
    if near(spots, context, p) {
        let k = choose|k: int|
            0 <= k < spots.len() && (#[trigger] spots[k]) - context <= p <= spots[k] + context;
        assert(spots[k] as int - p <= context && p - spots[k] as int <= context);
    }
    if exists|k: int|
        0 <= k < spots.len() && (#[trigger] spots[k]) as int - p <= context && p - spots[k] as int
            <= context {
        let k = choose|k: int|
            0 <= k < spots.len() && (#[trigger] spots[k]) as int - p <= context && p
                - spots[k] as int <= context;
        assert(spots[k] - context <= p <= spots[k] + context);
    }
}

/// Without context a search leaves every row in place.
pub proof fn without_context_every_row_stays(base: Seq<usize>, spots: Seq<usize>)
    ensures
        with_context(base, spots, 0) == base,
{
}

proof fn lemma_hits(base: Seq<usize>, all: Seq<Test>, file: FileParts, n: int)
    requires
        0 <= n <= base.len() <= usize::MAX,
    ensures
        ascending(hit_rows(base, all, file, n)),
        forall|p: usize| #[trigger]
            hit_rows(base, all, file, n).contains(p) <==> (p as int) < n && hit(
                base,
                all,
                file,
                p as int,
            ),
        forall|g: usize| #[trigger]
            hit_set(base, all, file, n).contains(g) <==> exists|p: int|
                0 <= p < n && #[trigger] base[p] == g && hit(base, all, file, p),
    decreases n,
{
    if n > 0 {
        lemma_hits(base, all, file, n - 1);
        let rows = hit_rows(base, all, file, n - 1);
        let more = hit_rows(base, all, file, n);
        let last = (n - 1) as usize;
        assert forall|p: usize| #[trigger] more.contains(p) <==> (p as int) < n && hit(
            base,
            all,
            file,
            p as int,
        ) by {
            if more.contains(p) {
                let i = choose|i: int| 0 <= i < more.len() && more[i] == p;
                if i < rows.len() {
                    assert(rows[i] == p);
                    assert(rows.contains(p));
                }
            }
            if (p as int) < n && hit(base, all, file, p as int) {
                if (p as int) < n - 1 {
                    assert(rows.contains(p));
                    let i = choose|i: int| 0 <= i < rows.len() && rows[i] == p;
                    assert(more[i] == p);
                } else {
                    assert(more[rows.len() as int] == p);
                }
            }
        }
        assert forall|i: int, j: int| 0 <= i < j < more.len() implies more[i] < more[j] by {
            assert(rows.contains(rows[i]));
        }
        assert forall|g: usize| #[trigger] hit_set(base, all, file, n).contains(g) <==> exists|
            p: int,
        |
            0 <= p < n && #[trigger] base[p] == g && hit(base, all, file, p) by {
            if hit_set(base, all, file, n).contains(g) {
                if hit_set(base, all, file, n - 1).contains(g) {
                    let p = choose|p: int|
                        0 <= p < n - 1 && #[trigger] base[p] == g && hit(base, all, file, p);
                    assert(base[p] == g);
                } else {
                    assert(base[n - 1] == g);
                }
            }
            if exists|p: int| 0 <= p < n && #[trigger] base[p] == g && hit(base, all, file, p) {
                let p = choose|p: int|
                    0 <= p < n && #[trigger] base[p] == g && hit(base, all, file, p);
                if p < n - 1 {
                    assert(hit_set(base, all, file, n - 1).contains(base[p]));
                }
            }
        }
    }
}

/// What a search finds: an entry is among the matches exactly where one of the rows holds it and
/// it passes every test, and the rows of the matches come in order.
pub proof fn a_search_finds_what_passes(base: Seq<usize>, all: Seq<Test>, file: FileParts)
    requires
        base.len() <= usize::MAX,
        forall|p: int| 0 <= p < base.len() ==> (#[trigger] base[p] as int) < file.entries.len(),
    ensures
        forall|context: int, g: usize|
            #![trigger computed(base, Some(all), file, context).1.contains(g)]
            computed(base, Some(all), file, context).1.contains(g) <==> base.contains(g)
                && passes_all(all, file, file.entries[g as int]),
        ascending(hit_rows(base, all, file, base.len() as int)),
        forall|p: int|
            0 <= p < base.len() ==> (hit_rows(base, all, file, base.len() as int).contains(
                p as usize,
            ) <==> passes_all(all, file, file.entries[#[trigger] base[p] as int])),
{
    let n = base.len() as int;
    lemma_hits(base, all, file, n);
    assert forall|context: int, g: usize|
        #![trigger computed(base, Some(all), file, context).1.contains(g)]
        computed(base, Some(all), file, context).1.contains(g) <==> base.contains(g) && passes_all(
            all,
            file,
            file.entries[g as int],
        ) by {
        if hit_set(base, all, file, n).contains(g) {
            let p = choose|p: int| 0 <= p < n && #[trigger] base[p] == g && hit(base, all, file, p);
            assert(base.contains(g));
        }
        if base.contains(g) && passes_all(all, file, file.entries[g as int]) {
            let p = choose|p: int| 0 <= p < n && base[p] == g;
            assert(base[p] == g && hit(base, all, file, p));
        }
    }
    assert forall|p: int| 0 <= p < base.len() implies (hit_rows(base, all, file, n).contains(
        p as usize,
    ) <==> passes_all(all, file, file.entries[#[trigger] base[p] as int])) by {
        assert(hit_rows(base, all, file, n).contains(p as usize) <==> ((p as usize) as int) < n
            && hit(base, all, file, (p as usize) as int));
    }
}

proof fn lemma_first_behind(rows: Seq<usize>, from: usize, i: int)
    requires
        0 <= i,
        ascending(rows),
    ensures
        match first_behind(rows, from, i) {
            Some(r) => r > from && rows.contains(r) && forall|k: int|
                i <= k < rows.len() && #[trigger] rows[k] > from ==> r <= rows[k],
            None => forall|k: int| i <= k < rows.len() ==> #[trigger] rows[k] <= from,
        },
    decreases rows.len() - i,
{
    if i < rows.len() {
        if rows[i] > from {
            assert forall|k: int| i <= k < rows.len() && #[trigger] rows[k] > from implies rows[i]
                <= rows[k] by {
                if i < k {
                    assert(rows[i] < rows[k]);
                }
            }
        } else {
            lemma_first_behind(rows, from, i + 1);
        }
    }
}

proof fn lemma_last_before(rows: Seq<usize>, from: usize, n: int)
    requires
        0 <= n <= rows.len(),
        ascending(rows),
    ensures
        match last_before(rows, from, n) {
            Some(r) => r < from && rows.contains(r) && forall|k: int|
                0 <= k < n && #[trigger] rows[k] < from ==> rows[k] <= r,
            None => forall|k: int| 0 <= k < n ==> #[trigger] rows[k] >= from,
        },
    decreases n,
{
    if n > 0 {
        if rows[n - 1] < from {
            assert forall|k: int| 0 <= k < n && #[trigger] rows[k] < from implies rows[k] <= rows[n
                - 1] by {
                if k < n - 1 {
                    assert(rows[k] < rows[n - 1]);
                }
            }
        } else {
            lemma_last_before(rows, from, n - 1);
        }
    }
}

/// The next match lies behind the row and no other lies between; where none lies behind, it is
/// the first of all. Going back, the same the other way round.
pub proof fn the_next_match_is_the_nearest(rows: Seq<usize>, from: usize)
    requires
        ascending(rows),
        rows.len() > 0,
    ensures
        ({
            let next = next_row(rows, from, true);
            &&& next is Some && rows.contains(next->0)
            &&& (exists|k: int| 0 <= k < rows.len() && #[trigger] rows[k] > from) ==> next->0 > from
                && forall|k: int|
                0 <= k < rows.len() && #[trigger] rows[k] > from ==> next->0 <= rows[k]
            &&& !(exists|k: int| 0 <= k < rows.len() && #[trigger] rows[k] > from) ==> forall|
                k: int,
            |
                0 <= k < rows.len() ==> next->0 <= #[trigger] rows[k]
        }),
        ({
            let back = next_row(rows, from, false);
            &&& back is Some && rows.contains(back->0)
            &&& (exists|k: int| 0 <= k < rows.len() && #[trigger] rows[k] < from) ==> back->0 < from
                && forall|k: int|
                0 <= k < rows.len() && #[trigger] rows[k] < from ==> rows[k] <= back->0
            &&& !(exists|k: int| 0 <= k < rows.len() && #[trigger] rows[k] < from) ==> forall|
                k: int,
            |
                0 <= k < rows.len() ==> #[trigger] rows[k] <= back->0
        }),
        next_row(Seq::empty(), from, true) is None,
        next_row(Seq::empty(), from, false) is None,
{
    lemma_first_behind(rows, from, 0);
    lemma_last_before(rows, from, rows.len() as int);
    assert(rows[0] == rows.first());
    assert forall|k: int| 0 <= k < rows.len() implies rows[0] <= #[trigger] rows[k] && rows[k]
        <= rows.last() by {
        if 0 < k {
            assert(rows[0] < rows[k]);
        }
        if k < rows.len() - 1 {
            assert(rows[k] < rows[rows.len() - 1]);
        }
    }
}

/// A move takes the cursor so many rows on, and no further than to the first or the last.
pub proof fn a_move_goes_as_far_as_it_can(cursor: usize, delta: int, len: nat)
    requires
        0 < len <= usize::MAX,
    ensures
        0 <= cursor + delta < len ==> moved(cursor, delta, len) == cursor + delta,
        cursor + delta < 0 ==> moved(cursor, delta, len) == 0,
        cursor + delta >= len ==> moved(cursor, delta, len) == len - 1,
        cursor < len ==> held_inside(cursor, len) == cursor,
        cursor >= len ==> held_inside(cursor, len) == len - 1,
{
}

/// A range holds the rows from the one end to the other, whichever was set first.
pub proof fn a_range_runs_between_its_ends(v: ViewModel, position: int)
    requires
        ascending(v.visible@),
        0 <= position < v.visible@.len(),
        v.anchor is Some,
    ensures
        v.in_range(v.visible@[position]) <==> (v.anchor->0 <= position <= v.cursor || v.cursor
            <= position <= v.anchor->0),
{
    let g = v.visible@[position];
    if v.in_range(g) {
        let p = choose|p: int|
            (v.range()->0).0 <= p <= (v.range()->0).1 && p < v.visible@.len()
                && #[trigger] v.visible@[p] == g;
        if p < position {
            assert(v.visible@[p] < v.visible@[position]);
        }
        if position < p {
            assert(v.visible@[position] < v.visible@[p]);
        }
    }
    assert(v.visible@[position] == g);
}

proof fn lemma_matched_rows(visible: Seq<usize>, matched: Set<usize>, n: int)
    requires
        0 <= n <= visible.len() <= usize::MAX,
    ensures
        ascending(matched_rows(visible, matched, n)),
        forall|p: usize| #[trigger]
            matched_rows(visible, matched, n).contains(p) <==> (p as int) < n && matched.contains(
                visible[p as int],
            ),
    decreases n,
{
    if n > 0 {
        lemma_matched_rows(visible, matched, n - 1);
        let rows = matched_rows(visible, matched, n - 1);
        let more = matched_rows(visible, matched, n);
        assert forall|p: usize| #[trigger] more.contains(p) <==> (p as int) < n
            && matched.contains(visible[p as int]) by {
            if more.contains(p) {
                let i = choose|i: int| 0 <= i < more.len() && more[i] == p;
                if i < rows.len() {
                    assert(rows[i] == p);
                    assert(rows.contains(p));
                }
            }
            if (p as int) < n && matched.contains(visible[p as int]) {
                if (p as int) < n - 1 {
                    assert(rows.contains(p));
                    let i = choose|i: int| 0 <= i < rows.len() && rows[i] == p;
                    assert(more[i] == p);
                } else {
                    assert(more[rows.len() as int] == p);
                }
            }
        }
        assert forall|i: int, j: int| 0 <= i < j < more.len() implies more[i] < more[j] by {
            assert(rows.contains(rows[i]));
        }
    }
}

/// The rows of the matches are the rows that show one, in order.
pub proof fn a_match_is_on_the_row_that_shows_it(visible: Seq<usize>, matched: Set<usize>, p: int)
    requires
        visible.len() <= usize::MAX,
        0 <= p < visible.len(),
    ensures
        ascending(matched_rows(visible, matched, visible.len() as int)),
        matched_rows(visible, matched, visible.len() as int).contains(p as usize)
            <==> matched.contains(visible[p]),
        forall|i: int|
            0 <= i < matched_rows(visible, matched, visible.len() as int).len() ==> (
            #[trigger] matched_rows(visible, matched, visible.len() as int)[i]) < visible.len(),
{
    lemma_matched_rows(visible, matched, visible.len() as int);
    let rows = matched_rows(visible, matched, visible.len() as int);
    assert(rows.contains(p as usize) <==> ((p as usize) as int) < visible.len()
        && matched.contains(visible[(p as usize) as int]));
    assert forall|i: int| 0 <= i < rows.len() implies (#[trigger] rows[i]) < visible.len() by {
        assert(rows.contains(rows[i]));
    }
}

/// What is selected is what is marked, and what lies between the two ends of a range while there
/// is one.
pub proof fn marks_and_the_range_are_selected(v: ViewModel, position: int)
    requires
        ascending(v.visible@),
        0 <= position < v.visible@.len(),
    ensures
        v.selects(v.visible@[position]) <==> v.marked@.contains(v.visible@[position]) || (
        v.anchor is Some && (v.anchor->0 <= position <= v.cursor || v.cursor <= position
            <= v.anchor->0)),
{
    if v.anchor is Some {
        a_range_runs_between_its_ends(v, position);
    }
}

} // verus!
