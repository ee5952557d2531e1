//! A project: the logs of a folder, the schemas they are read under, and what was set up for
//! them.

use crate::detect::{
    bracketed_format, bracketed_schema, builtin_extractors, default_extractor, detect, detected,
    generic_format, generic_schema,
};
use crate::extractor::{
    extractor_from_project, Extractor, Schema, BRACKETED_DEFAULT_FORMAT, BRACKETED_LEGACY_FORMAT,
    DEFAULT_EXTRACTOR_NAME,
};
use crate::filters::{one_time, FilterSet};
use crate::json::{number_of, object, Doc, Json};
use crate::lists::{clone_option, clone_strings, keep, lemma_keep};
use crate::merge::{file_views, merge_files, merged};
use crate::models::{FileParts, LogFileModel};
use crate::parser::{grouped, schema_views};
use crate::paths::{display_name, is_step, join_path, joined, shown_name};
use crate::sorting::{sort_texts, sorted_texts};
use crate::text::{
    blank, decimal, decimal_text, is_blank, is_text_less, join, join_strs, lemma_span,
    lemma_span_is, lemma_text_less_irreflexive, lemma_text_less_total, lemma_text_less_transitive,
    list_has, not_char, opt_str, same_text, span, split, strs, text_less, text_split, texts,
};
use vstd::prelude::*;

verus! {

pub const CONFIG_DIR: &'static str = ".logscouter";

pub const CONFIG_FILE: &'static str = "project.json";

// ---------------------------------------------------------------------------
// The session
// ---------------------------------------------------------------------------

/// The panes as they were at quit, so reopening a folder resumes where it left off.
#[derive(Debug, PartialEq, Eq)]
pub struct Session {
    pub panes: Vec<PaneSession>,
    pub focused_pane: usize,
    /// "horizontal" or "vertical"; anything else falls back to horizontal.
    pub split_mode: String,
    /// Sidebar width override in columns; `None` uses the automatic width.
    pub sidebar_width: Option<u16>,
    /// Height overrides in rows for the stacked panels.
    pub results_height: Option<u16>,
    pub detail_height: Option<u16>,
    pub chat_height: Option<u16>,
    /// Per-pane size weights; empty or the wrong length means equal panes.
    pub pane_weights: Vec<u16>,
    pub hide_sidebar: bool,
    pub hide_detail: bool,
    pub hide_chat: bool,
    pub hide_results: bool,
    pub focus_mode: bool,
    pub timeline_field: Option<String>,
}

#[derive(Debug, PartialEq, Eq)]
pub struct PaneSession {
    /// The files feeding this pane. More than one means a timestamp merge, which cannot be
    /// rebuilt until those files have loaded.
    pub file_ids: Vec<String>,
    pub query: String,
    pub context: usize,
}

/// What a pane shows: its files, its query and how many rows around a match.
#[verifier::ext_equal]
pub struct PaneParts {
    pub file_ids: Seq<String>,
    pub query: Seq<char>,
    pub context: usize,
}

impl View for PaneSession {
    type V = PaneParts;

    open spec fn view(&self) -> PaneParts {
        PaneParts { file_ids: self.file_ids@, query: self.query@, context: self.context }
    }
}

impl Clone for PaneSession {
    fn clone(&self) -> (r: Self)
        ensures
            r@ == self@,
    {
        PaneSession {
            file_ids: clone_strings(&self.file_ids),
            query: self.query.clone(),
            context: self.context,
        }
    }
}

/// What was on screen.
#[verifier::ext_equal]
pub struct SessionParts {
    pub panes: Seq<PaneParts>,
    pub focused_pane: usize,
    pub split_mode: Seq<char>,
    pub sidebar_width: Option<u16>,
    pub results_height: Option<u16>,
    pub detail_height: Option<u16>,
    pub chat_height: Option<u16>,
    pub pane_weights: Seq<u16>,
    pub hide_sidebar: bool,
    pub hide_detail: bool,
    pub hide_chat: bool,
    pub hide_results: bool,
    pub focus_mode: bool,
    pub timeline_field: Option<String>,
}

pub open spec fn pane_views(v: Seq<PaneSession>) -> Seq<PaneParts> {
    v.map_values(|p: PaneSession| p@)
}

impl View for Session {
    type V = SessionParts;

    open spec fn view(&self) -> SessionParts {
        SessionParts {
            panes: pane_views(self.panes@),
            focused_pane: self.focused_pane,
            split_mode: self.split_mode@,
            sidebar_width: self.sidebar_width,
            results_height: self.results_height,
            detail_height: self.detail_height,
            chat_height: self.chat_height,
            pane_weights: self.pane_weights@,
            hide_sidebar: self.hide_sidebar,
            hide_detail: self.hide_detail,
            hide_chat: self.hide_chat,
            hide_results: self.hide_results,
            focus_mode: self.focus_mode,
            timeline_field: self.timeline_field,
        }
    }
}

pub open spec fn session_view(session: Option<Session>) -> Option<SessionParts> {
    match session {
        Some(s) => Some(s@),
        None => None,
    }
}

impl Clone for Session {
    fn clone(&self) -> (r: Self)
        ensures
            r@ == self@,
    {
        let mut panes: Vec<PaneSession> = Vec::new();
        for i in 0..self.panes.len()
            invariant
                pane_views(panes@) == pane_views(self.panes@).take(i as int),
        {
            let ghost before = panes@;
            panes.push(self.panes[i].clone());
            assert(pane_views(panes@) =~= pane_views(before).push(self.panes@[i as int]@));
        }
        let mut weights: Vec<u16> = Vec::new();
        for i in 0..self.pane_weights.len()
            invariant
                weights@ == self.pane_weights@.take(i as int),
        {
            weights.push(self.pane_weights[i]);
        }
        let r = Session {
            panes,
            focused_pane: self.focused_pane,
            split_mode: self.split_mode.clone(),
            sidebar_width: self.sidebar_width,
            results_height: self.results_height,
            detail_height: self.detail_height,
            chat_height: self.chat_height,
            pane_weights: weights,
            hide_sidebar: self.hide_sidebar,
            hide_detail: self.hide_detail,
            hide_chat: self.hide_chat,
            hide_results: self.hide_results,
            focus_mode: self.focus_mode,
            timeline_field: clone_option(&self.timeline_field),
        };
        assert(r@ =~= self@);
        r
    }
}

impl Session {
    pub fn is_empty(&self) -> (r: bool)
        ensures
            r == (self.panes@.len() == 0),
    {
        self.panes.len() == 0
    }
}

impl Default for Session {
    fn default() -> (r: Self)
        ensures
            r.panes@.len() == 0,
            r.focused_pane == 0,
            r.split_mode@.len() == 0,
            r.sidebar_width is None,
            r.results_height is None,
            r.detail_height is None,
            r.chat_height is None,
            r.pane_weights@.len() == 0,
            !r.hide_sidebar,
            !r.hide_detail,
            !r.hide_chat,
            !r.hide_results,
            !r.focus_mode,
            r.timeline_field is None,
    {
        Session {
            panes: Vec::new(),
            focused_pane: 0,
            split_mode: String::new(),
            sidebar_width: None,
            results_height: None,
            detail_height: None,
            chat_height: None,
            pane_weights: Vec::new(),
            hide_sidebar: false,
            hide_detail: false,
            hide_chat: false,
            hide_results: false,
            focus_mode: false,
            timeline_field: None,
        }
    }
}

impl Default for PaneSession {
    fn default() -> (r: Self)
        ensures
            r.file_ids@.len() == 0,
            r.query@.len() == 0,
            r.context == 0,
    {
        PaneSession { file_ids: Vec::new(), query: String::new(), context: 0 }
    }
}

// ---------------------------------------------------------------------------
// The schemas of a project
// ---------------------------------------------------------------------------

/// Where the first schema of this name stands at or after `i`; the length where none does.
pub open spec fn schema_index(schemas: Seq<Schema>, name: Seq<char>, i: int) -> int
    decreases schemas.len() - i,
{
    if i >= schemas.len() {
        schemas.len() as int
    } else if schemas[i].name == name {
        i
    } else {
        schema_index(schemas, name, i + 1)
    }
}

pub open spec fn has_schema(schemas: Seq<Schema>, name: Seq<char>) -> bool {
    schema_index(schemas, name, 0) < schemas.len()
}

/// The schemas with one more, in the place of the one of its name if there is one.
pub open spec fn with_schema(schemas: Seq<Schema>, schema: Schema) -> Seq<Schema> {
    if has_schema(schemas, schema.name) {
        schemas.update(schema_index(schemas, schema.name, 0), schema)
    } else {
        schemas.push(schema)
    }
}

/// The schemas with one more, unless one of its name is there.
pub open spec fn with_missing(schemas: Seq<Schema>, schema: Schema) -> Seq<Schema> {
    if has_schema(schemas, schema.name) {
        schemas
    } else {
        schemas.push(schema)
    }
}

/// The schemas with the built-in ones that they lack.
pub open spec fn with_builtins(schemas: Seq<Schema>) -> Seq<Schema> {
    with_missing(with_missing(schemas, bracketed_schema().built()), generic_schema())
}

/// Why the built-in schemas cannot be had, if they cannot.
pub open spec fn builtin_error() -> Option<Seq<char>> {
    if bracketed_format().refusal() is Some {
        bracketed_format().refusal()
    } else if bracketed_schema().refusal() is Some {
        bracketed_schema().refusal()
    } else {
        generic_format().refusal()
    }
}

/// No two schemas share a name.
pub open spec fn names_differ(schemas: Seq<Schema>) -> bool {
    forall|i: int, j: int|
        0 <= i < j < schemas.len() ==> (#[trigger] schemas[i]).name != (#[trigger] schemas[j]).name
}

/// The schema whose name comes first in the dictionary.
pub open spec fn first_named(schemas: Seq<Schema>) -> Schema
    decreases schemas.len(),
{
    if schemas.len() <= 1 {
        schemas[0]
    } else if text_less(schemas.last().name, first_named(schemas.drop_last()).name) {
        schemas.last()
    } else {
        first_named(schemas.drop_last())
    }
}

/// The schema to fall back on: the built-in, else the first by name.
pub open spec fn fallback(schemas: Seq<Schema>) -> Option<Schema> {
    if has_schema(schemas, DEFAULT_EXTRACTOR_NAME@) {
        Some(schemas[schema_index(schemas, DEFAULT_EXTRACTOR_NAME@, 0)])
    } else if schemas.len() > 0 {
        Some(first_named(schemas))
    } else {
        None
    }
}

/// The fallback and the schemas after asking for it: a project without any gets the built-in
/// one, unless that cannot be had.
pub open spec fn settled(schemas: Seq<Schema>) -> Result<(Schema, Seq<Schema>), Seq<char>> {
    match fallback(schemas) {
        Some(s) => Ok((s, schemas)),
        None => if bracketed_format().refusal() is Some {
            Err(bracketed_format().refusal()->0)
        } else if bracketed_schema().refusal() is Some {
            Err(bracketed_schema().refusal()->0)
        } else {
            Ok((bracketed_schema().built(), seq![bracketed_schema().built()]))
        },
    }
}

/// The schema of a name, or the fallback, and the schemas after asking for it.
pub open spec fn resolved(schemas: Seq<Schema>, name: Seq<char>) -> Result<
    (Schema, Seq<Schema>),
    Seq<char>,
> {
    if has_schema(schemas, name) {
        Ok((schemas[schema_index(schemas, name, 0)], schemas))
    } else {
        settled(schemas)
    }
}

/// The schema that best explains a file's first lines, or the fallback; a file that could not
/// be read has none.
pub open spec fn detected_for(schemas: Seq<Schema>, lines: Option<Seq<Seq<char>>>) -> Result<
    (Schema, Seq<Schema>),
    Seq<char>,
> {
    match lines {
        None => settled(schemas),
        Some(lines) => match detected(schemas, lines) {
            Some(s) => Ok((s, schemas)),
            None => settled(schemas),
        },
    }
}

// ---------------------------------------------------------------------------
// The project
// ---------------------------------------------------------------------------

#[derive(Debug)]
pub struct Project {
    pub root: String,
    pub files: Vec<LogFileModel>,
    /// At most one schema of a name.
    pub extractors: Vec<Extractor>,
    pub saved_searches: Vec<String>,
    pub filters: FilterSet,
    /// What was on screen when the folder was last closed.
    pub session: Option<Session>,
    pub settings: Json,
    pub file_counter: usize,
}

pub open spec fn models(v: Seq<LogFileModel>) -> Seq<FileParts> {
    v.map_values(|f: LogFileModel| f@)
}

pub open spec fn schemas_of(v: Seq<Extractor>) -> Seq<Schema> {
    v.map_values(|e: Extractor| e@)
}

/// What every project starts with.
pub open spec fn initial_settings() -> Doc {
    object().with("context_default"@, Doc::Number(number_of(3)))
}

pub fn default_settings() -> (r: Json)
    ensures
        r@ == initial_settings(),
{
    Json::empty().with("context_default", Json::whole(3))
}

/// The version of a saved project.
pub fn project_version() -> (r: u32)
    ensures
        r == 1,
{
    1
}

proof fn lemma_schema_index(schemas: Seq<Schema>, name: Seq<char>, i: int)
    requires
        0 <= i <= schemas.len(),
    ensures
        i <= schema_index(schemas, name, i) <= schemas.len(),
        schema_index(schemas, name, i) < schemas.len() ==> schemas[schema_index(
            schemas,
            name,
            i,
        )].name == name,
        forall|k: int|
            i <= k < schema_index(schemas, name, i) ==> (#[trigger] schemas[k]).name != name,
    decreases schemas.len() - i,
{
    if i < schemas.len() && schemas[i].name != name {
        lemma_schema_index(schemas, name, i + 1);
    }
}

proof fn lemma_index_is(schemas: Seq<Schema>, name: Seq<char>, i: int, at: int)
    requires
        0 <= i <= at < schemas.len(),
        schemas[at].name == name,
        forall|k: int| i <= k < at ==> (#[trigger] schemas[k]).name != name,
    ensures
        schema_index(schemas, name, i) == at,
    decreases at - i,
{
    if i < at {
        lemma_index_is(schemas, name, i + 1, at);
    }
}

impl Project {
    pub open spec fn schemas(self) -> Seq<Schema> {
        schemas_of(self.extractors@)
    }

    pub open spec fn models(self) -> Seq<FileParts> {
        models(self.files@)
    }

    /// No two of its schemas share a name.
    pub open spec fn wf(self) -> bool {
        names_differ(self.schemas())
    }

    /// Everything but the files and the schemas is the same.
    pub open spec fn keeps_the_rest(self, before: Project) -> bool {
        &&& self.root == before.root
        &&& self.saved_searches == before.saved_searches
        &&& self.filters == before.filters
        &&& self.session == before.session
        &&& self.settings == before.settings
    }

    /// An empty project at `root`, which is an absolute path.
    pub fn new(root: &str) -> (r: Result<Project, String>)
        ensures
            match r {
                Ok(p) => {
                    &&& builtin_error() is None
                    &&& p.root@ == root@
                    &&& p.files@.len() == 0
                    &&& p.schemas() == with_builtins(Seq::empty())
                    &&& p.saved_searches@.len() == 0
                    &&& p.filters.rules@.len() == 0
                    &&& p.session is None
                    &&& p.settings@ == initial_settings()
                    &&& p.file_counter == 0
                    &&& p.wf()
                },
                Err(e) => builtin_error() == Some(e@),
            },
    {
        let mut project = Project {
            root: root.to_string(),
            files: Vec::new(),
            extractors: Vec::new(),
            saved_searches: Vec::new(),
            filters: FilterSet { rules: Vec::new() },
            session: None,
            settings: default_settings(),
            file_counter: 0,
        };
        assert(project.schemas() =~= Seq::<Schema>::empty());
        match project.ensure_builtin_extractors() {
            Ok(_) => Ok(project),
            Err(error) => Err(error),
        }
    }

    fn index_of(&self, name: &str) -> (r: usize)
        ensures
            r == schema_index(self.schemas(), name@, 0),
            r <= self.extractors@.len(),
    {
        let ghost all = self.schemas();
        for i in 0..self.extractors.len()
            invariant
                all == self.schemas(),
                schema_index(all, name@, 0) == schema_index(all, name@, i as int),
        {
            assert(all[i as int] == self.extractors@[i as int]@);
            if same_text(self.extractors[i].name.as_str(), name) {
                return i;
            }
        }
        self.extractors.len()
    }

    fn add_missing(&mut self, extractor: Extractor)
        requires
            old(self).wf(),
        ensures
            final(self).schemas() == with_missing(old(self).schemas(), extractor@),
            final(self).files == old(self).files,
            final(self).file_counter == old(self).file_counter,
            final(self).keeps_the_rest(*old(self)),
            final(self).wf(),
    {
        let at: usize = self.index_of(extractor.name.as_str());
        let ghost before = self.schemas();
        proof {
            lemma_schema_index(before, extractor.name@, 0);
        }
        if at >= self.extractors.len() {
            let ghost added = extractor@;
            self.extractors.push(extractor);
            assert(self.schemas() =~= before.push(added));
        }
    }

    fn put(&mut self, extractor: Extractor)
        requires
            old(self).wf(),
        ensures
            final(self).schemas() == with_schema(old(self).schemas(), extractor@),
            final(self).extractors@.len() > 0,
            final(self).files == old(self).files,
            final(self).file_counter == old(self).file_counter,
            final(self).keeps_the_rest(*old(self)),
            final(self).wf(),
    {
        let at: usize = self.index_of(extractor.name.as_str());
        let ghost before = self.schemas();
        let ghost added = extractor@;
        proof {
            lemma_schema_index(before, extractor.name@, 0);
        }
        if at < self.extractors.len() {
            self.extractors.set(at, extractor);
            assert(self.schemas() =~= before.update(at as int, added));
        } else {
            self.extractors.push(extractor);
            assert(self.schemas() =~= before.push(added));
        }
    }

    /// Add any built-in schema the project does not already define. A schema the user has edited
    /// under a built-in name wins.
    pub fn ensure_builtin_extractors(&mut self) -> (r: Result<(), String>)
        requires
            old(self).wf(),
        ensures
            match r {
                Ok(_) => builtin_error() is None && final(self).schemas() == with_builtins(
                    old(self).schemas(),
                ),
                Err(e) => builtin_error() == Some(e@) && final(self).schemas()
                    == old(self).schemas(),
            },
            final(self).files == old(self).files,
            final(self).file_counter == old(self).file_counter,
            final(self).keeps_the_rest(*old(self)),
            final(self).wf(),
    {
        match builtin_extractors() {
            Err(error) => Err(error),
            Ok(both) => {
                let first = both[0].clone();
                let second = both[1].clone();
                self.add_missing(first);
                self.add_missing(second);
                Ok(())
            },
        }
    }

    pub fn config_dir(&self) -> (r: String)
        ensures
            r@ == joined(self.root@, CONFIG_DIR@),
    {
        join_path(self.root.as_str(), CONFIG_DIR)
    }

    pub fn config_path(&self) -> (r: String)
        ensures
            r@ == joined(joined(self.root@, CONFIG_DIR@), CONFIG_FILE@),
    {
        join_path(self.config_dir().as_str(), CONFIG_FILE)
    }

    /// Add a schema, or redefine the one of its name. One that does not compile is refused.
    pub fn add_extractor(&mut self, extractor: Extractor) -> (r: Result<(), String>)
        requires
            old(self).wf(),
        ensures
            match r {
                Ok(_) => extractor@.refusal() is None && final(self).schemas() == with_schema(
                    old(self).schemas(),
                    extractor@.built(),
                ),
                Err(e) => extractor@.refusal() == Some(e@) && final(self).schemas()
                    == old(self).schemas(),
            },
            final(self).files == old(self).files,
            final(self).file_counter == old(self).file_counter,
            final(self).keeps_the_rest(*old(self)),
            final(self).wf(),
    {
        let mut extractor = extractor;
        match extractor.compile() {
            Err(error) => Err(error),
            Ok(_) => {
                self.put(extractor);
                Ok(())
            },
        }
    }

    /// The schema of this name, or the fallback.
    pub fn get_extractor(&mut self, name: &str) -> (r: Result<Extractor, String>)
        requires
            old(self).wf(),
        ensures
            match r {
                Ok(e) => resolved(old(self).schemas(), name@) == Ok::<
                    (Schema, Seq<Schema>),
                    Seq<char>,
                >((e@, final(self).schemas())),
                Err(e) => resolved(old(self).schemas(), name@) == Err::<
                    (Schema, Seq<Schema>),
                    Seq<char>,
                >(e@) && final(self).schemas() == old(self).schemas(),
            },
            final(self).files == old(self).files,
            final(self).file_counter == old(self).file_counter,
            final(self).keeps_the_rest(*old(self)),
            final(self).wf(),
    {
        let at: usize = self.index_of(name);
        if at < self.extractors.len() {
            assert(self.schemas()[at as int] == self.extractors@[at as int]@);
            return Ok(self.extractors[at].clone());
        }
        self.default_extractor_obj()
    }

    /// The schema to fall back on when nothing is known about a file: the built-in one, else the
    /// first by name, so that it does not depend on the order of the schemas.
    pub fn default_extractor_obj(&mut self) -> (r: Result<Extractor, String>)
        requires
            old(self).wf(),
        ensures
            match r {
                Ok(e) => settled(old(self).schemas()) == Ok::<(Schema, Seq<Schema>), Seq<char>>(
                    (e@, final(self).schemas()),
                ),
                Err(e) => settled(old(self).schemas()) == Err::<
                    (Schema, Seq<Schema>),
                    Seq<char>,
                >(e@) && final(self).schemas() == old(self).schemas(),
            },
            final(self).files == old(self).files,
            final(self).file_counter == old(self).file_counter,
            final(self).keeps_the_rest(*old(self)),
            final(self).wf(),
    {
        let at: usize = self.index_of(DEFAULT_EXTRACTOR_NAME);
        if at < self.extractors.len() {
            assert(self.schemas()[at as int] == self.extractors@[at as int]@);
            return Ok(self.extractors[at].clone());
        }
        if self.extractors.len() > 0 {
            let first: usize = self.first_by_name();
            return Ok(self.extractors[first].clone());
        }
        match default_extractor() {
            Err(error) => Err(error),
            Ok(extractor) => {
                let copy = extractor.clone();
                self.extractors.push(extractor);
                assert(self.schemas() =~= seq![copy@]);
                Ok(copy)
            },
        }
    }

    fn first_by_name(&self) -> (r: usize)
        requires
            self.extractors@.len() > 0,
        ensures
            r < self.extractors@.len(),
            self.extractors@[r as int]@ == first_named(self.schemas()),
    {
        let ghost all = self.schemas();
        let mut best: usize = 0;
        for i in 1..self.extractors.len()
            invariant
                1 <= i <= self.extractors@.len(),
                all == self.schemas(),
                best < i,
                self.extractors@[best as int]@ == first_named(all.take(i as int)),
        {
            assert(all.take(i + 1).drop_last() =~= all.take(i as int));
            assert(all.take(i + 1).last() == self.extractors@[i as int]@);
            if is_text_less(self.extractors[i].name.as_str(), self.extractors[best].name.as_str()) {
                best = i;
            }
        }
        assert(all.take(all.len() as int) =~= all);
        best
    }

    fn references<'a>(&'a self) -> (r: Vec<&'a Extractor>)
        ensures
            schema_views(r@) == self.schemas(),
    {
        let mut out: Vec<&'a Extractor> = Vec::new();
        for i in 0..self.extractors.len()
            invariant
                out.len() == i,
                forall|k: int| 0 <= k < i ==> *(#[trigger] out@[k]) == self.extractors@[k],
        {
            out.push(&self.extractors[i]);
        }
        assert(schema_views(out@) =~= self.schemas());
        out
    }

    /// The schema whose format best explains a file's first lines, or the fallback. A file that
    /// could not be read (`None`) yields the fallback: the load will report the failure.
    pub fn detect_extractor_for(&mut self, lines: Option<&Vec<String>>) -> (r: Result<
        Extractor,
        String,
    >)
        requires
            old(self).wf(),
        ensures
            ({
                let want = detected_for(
                    old(self).schemas(),
                    match lines {
                        Some(v) => Some(texts(v@)),
                        None => None,
                    },
                );
                match r {
                    Ok(e) => want == Ok::<(Schema, Seq<Schema>), Seq<char>>(
                        (e@, final(self).schemas()),
                    ),
                    Err(e) => want == Err::<(Schema, Seq<Schema>), Seq<char>>(e@)
                        && final(self).schemas() == old(self).schemas(),
                }
            }),
            final(self).files == old(self).files,
            final(self).file_counter == old(self).file_counter,
            final(self).keeps_the_rest(*old(self)),
            final(self).wf(),
    {
        if let Some(lines) = lines {
            let found = {
                let candidates = self.references();
                match detect(candidates.as_slice(), lines.as_slice()) {
                    Some(e) => Some(e.clone()),
                    None => None,
                }
            };
            if let Some(extractor) = found {
                return Ok(extractor);
            }
        }
        self.default_extractor_obj()
    }
}

// ---------------------------------------------------------------------------
// Paths
// ---------------------------------------------------------------------------

/// The pieces of a path that are left when its steps start with `steps`; nothing where they do
/// not.
pub open spec fn after_steps(pieces: Seq<Seq<char>>, steps: Seq<Seq<char>>) -> Option<
    Seq<Seq<char>>,
>
    decreases pieces.len(),
{
    if steps.len() == 0 {
        Some(pieces)
    } else if pieces.len() == 0 {
        None
    } else if !is_step()(pieces[0]) {
        after_steps(pieces.skip(1), steps)
    } else if pieces[0] == steps[0] {
        after_steps(pieces.skip(1), steps.skip(1))
    } else {
        None
    }
}

/// The pieces from the first step on.
pub open spec fn from_first_step(pieces: Seq<Seq<char>>) -> Seq<Seq<char>>
    decreases pieces.len(),
{
    if pieces.len() == 0 || is_step()(pieces[0]) {
        pieces
    } else {
        from_first_step(pieces.skip(1))
    }
}

/// The pieces up to the last step.
pub open spec fn to_last_step(pieces: Seq<Seq<char>>) -> Seq<Seq<char>>
    decreases pieces.len(),
{
    if pieces.len() == 0 || is_step()(pieces.last()) {
        pieces
    } else {
        to_last_step(pieces.drop_last())
    }
}

/// Whether a path starts at the root of the file system.
pub open spec fn is_absolute(path: Seq<char>) -> bool {
    path.len() > 0 && path[0] == '/'
}

/// Whether a path starts with `.`, which is a step there.
pub open spec fn starts_here(path: Seq<char>) -> bool {
    split(path, '/')[0] == "."@
}

/// A path as seen from a folder; one that is not in the folder stays as it is.
pub open spec fn relative(root: Seq<char>, path: Seq<char>) -> Seq<char> {
    if is_absolute(root) != is_absolute(path) || (root.len() > 0 && starts_here(root)
        != starts_here(path)) {
        path
    } else if root.len() == 0 && starts_here(path) {
        let kept = to_last_step(split(path, '/'));
        if kept.len() == 0 {
            "."@
        } else {
            join(kept, "/"@)
        }
    } else {
        match after_steps(split(path, '/'), keep(split(root, '/'), is_step())) {
            Some(rest) => join(to_last_step(from_first_step(rest)), "/"@),
            None => path,
        }
    }
}

fn starts_at_root(path: &str) -> (r: bool)
    ensures
        r == is_absolute(path@),
{
    path.unicode_len() > 0 && path.get_char(0) == '/'
}

fn is_plain_step(piece: &str) -> (r: bool)
    ensures
        r == is_step()(piece@),
{
    !piece.is_empty() && !same_text(piece, ".")
}

/// A path as seen from the folder `root`.
pub fn relative_path(root: &str, path: &str) -> (r: String)
    ensures
        r@ == relative(root@, path@),
{
    if starts_at_root(root) != starts_at_root(path) {
        return path.to_string();
    }
    let pieces = text_split(path, '/');
    let above = text_split(root, '/');
    let ghost all = strs(pieces@);
    let ghost up = strs(above@);
    proof {
        lemma_split_slashes(path@);
        lemma_split_slashes(root@);
    }
    assert(all[0] == pieces@[0]@ && up[0] == above@[0]@);
    let here = same_text(pieces[0], ".");
    if !root.is_empty() && same_text(above[0], ".") != here {
        return path.to_string();
    }
    if root.is_empty() && here {
        let to: usize = end_of_steps(&pieces, 0);
        assert(all.subrange(0, all.len() as int) =~= all);
        if to == 0 {
            return ".".to_string();
        }
        return join_range(&pieces, 0, to);
    }
    let ghost steps = keep(up, is_step());
    let mut at: usize = 0;
    let ghost mut left = steps;
    assert(all.skip(0) =~= all);
    assert(keep(up.take(0), is_step()) + steps =~= steps);
    let ghost want = after_steps(all, steps);
    let mut i: usize = 0;
    // Walk the root's steps, and the path along with them.
    while i < above.len()
        invariant
            i <= above@.len(),
            at <= pieces@.len(),
            all == strs(pieces@),
            up == strs(above@),
            steps == keep(up, is_step()),
            want == after_steps(all, steps),
            keep(up.take(i as int), is_step()) + left == steps,
            after_steps(all.skip(at as int), left) == want,
            is_absolute(root@) == is_absolute(path@),
            all == split(path@, '/'),
            up == split(root@, '/'),
        decreases above@.len() - i,
    {
        assert(up.take(i + 1).drop_last() =~= up.take(i as int));
        assert(up.take(i + 1).last() == above@[i as int]@);
        if is_plain_step(above[i]) {
            proof {
                lemma_keep_front(up, is_step(), i as int, left);
            }
            // Skip what is no step of the path.
            while at < pieces.len() && !is_plain_step(pieces[at])
                invariant
                    at <= pieces@.len(),
                    all == strs(pieces@),
                    left.len() > 0,
                    after_steps(all.skip(at as int), left) == want,
                ensures
                    at <= pieces@.len(),
                    at < pieces@.len() ==> is_step()(all[at as int]),
                    after_steps(all.skip(at as int), left) == want,
                decreases pieces@.len() - at,
            {
                assert(all.skip(at as int)[0] == pieces@[at as int]@);
                assert(all.skip(at as int).skip(1) =~= all.skip(at + 1));
                at = at + 1;
            }
            if at >= pieces.len() {
                assert(want is None);
                return path.to_string();
            }
            assert(all.skip(at as int)[0] == pieces@[at as int]@);
            assert(all.skip(at as int).skip(1) =~= all.skip(at + 1));
            if !same_text(pieces[at], above[i]) {
                assert(want is None);
                return path.to_string();
            }
            proof {
                let before = keep(up.take(i as int), is_step());
                assert(left =~= seq![left[0]] + left.skip(1));
                assert(before + left =~= before.push(left[0]) + left.skip(1));
                left = left.skip(1);
            }
            at = at + 1;
        }
        i = i + 1;
    }
    proof {
        assert(up.take(up.len() as int) =~= up);
        assert(left.len() == 0) by {
            assert((steps + left).len() == steps.len() + left.len());
        }
    }
    let ghost rest = all.skip(at as int);
    assert(want == Some(rest));
    let mut from: usize = at;
    while from < pieces.len() && !is_plain_step(pieces[from])
        invariant
            from <= pieces@.len(),
            all == strs(pieces@),
            from_first_step(all.skip(from as int)) == from_first_step(rest),
        ensures
            from <= pieces@.len(),
            from_first_step(rest) == all.skip(from as int),
        decreases pieces@.len() - from,
    {
        assert(all.skip(from as int)[0] == pieces@[from as int]@);
        assert(all.skip(from as int).skip(1) =~= all.skip(from + 1));
        from = from + 1;
    }
    let to: usize = end_of_steps(&pieces, from);
    assert(all.subrange(from as int, all.len() as int) =~= all.skip(from as int));
    join_range(&pieces, from, to)
}

/// The end of what is left of the pieces from `from` on when it ends with a step.
fn end_of_steps(pieces: &Vec<&str>, from: usize) -> (to: usize)
    requires
        from <= pieces@.len(),
    ensures
        from <= to <= pieces@.len(),
        to_last_step(strs(pieces@).subrange(from as int, pieces@.len() as int)) == strs(
            pieces@,
        ).subrange(from as int, to as int),
{
    let ghost all = strs(pieces@);
    let ghost rest = all.subrange(from as int, all.len() as int);
    let mut to: usize = pieces.len();
    while to > from && !is_plain_step(pieces[to - 1])
        invariant
            from <= to <= pieces@.len(),
            all == strs(pieces@),
            to_last_step(all.subrange(from as int, to as int)) == to_last_step(rest),
        ensures
            from <= to <= pieces@.len(),
            to_last_step(rest) == all.subrange(from as int, to as int),
        decreases to,
    {
        assert(all.subrange(from as int, to as int).last() == pieces@[to - 1]@);
        assert(all.subrange(from as int, to as int).drop_last() =~= all.subrange(
            from as int,
            to - 1,
        ));
        to = to - 1;
    }
    to
}

/// The pieces from `from` up to `to`, with slashes between them.
fn join_range(pieces: &Vec<&str>, from: usize, to: usize) -> (r: String)
    requires
        from <= to <= pieces@.len(),
    ensures
        r@ == join(strs(pieces@).subrange(from as int, to as int), "/"@),
{
    let ghost all = strs(pieces@);
    let mut out: Vec<&str> = Vec::new();
    for k in from..to
        invariant
            from <= k <= to <= pieces@.len(),
            all == strs(pieces@),
            strs(out@) == all.subrange(from as int, k as int),
    {
        let ghost before = strs(out@);
        out.push(pieces[k]);
        assert(strs(out@) =~= before.push(all[k as int]));
        assert(all.subrange(from as int, k + 1) =~= all.subrange(from as int, k as int).push(
            all[k as int],
        ));
    }
    join_strs(out.as_slice(), "/")
}

/// What is left of the kept items starts with the next kept one.
proof fn lemma_keep_front(all: Seq<Seq<char>>, p: spec_fn(Seq<char>) -> bool, i: int, left: Seq<
    Seq<char>,
>)
    requires
        0 <= i < all.len(),
        p(all[i]),
        keep(all.take(i), p) + left == keep(all, p),
    ensures
        left.len() > 0,
        left[0] == all[i],
{
    lemma_keep_split(all, p, i + 1);
    assert(all.take(i + 1).drop_last() =~= all.take(i));
    assert(all.take(i + 1).last() == all[i]);
    let before = keep(all.take(i), p);
    let rest = keep(all.skip(i + 1), p);
    assert(keep(all.take(i + 1), p) == before.push(all[i]));
    assert((before + left)[before.len() as int] == (before.push(all[i]) + rest)[before.len() as int]);
    assert((before + left).len() == (before.push(all[i]) + rest).len());
}

proof fn lemma_keep_split(all: Seq<Seq<char>>, p: spec_fn(Seq<char>) -> bool, i: int)
    requires
        0 <= i <= all.len(),
    ensures
        keep(all, p) == keep(all.take(i), p) + keep(all.skip(i), p),
    decreases all.len() - i,
{
    if i < all.len() {
        let most = all.drop_last();
        lemma_keep_split(most, p, i);
        assert(most.take(i) =~= all.take(i));
        assert(most.skip(i) =~= all.skip(i).drop_last());
        assert(all.skip(i).last() == all.last());
        assert(keep(all, p) =~= keep(all.take(i), p) + keep(all.skip(i), p));
    } else {
        assert(all.take(i) =~= all);
        assert(all.skip(i) =~= Seq::empty());
        assert(keep(all, p) =~= keep(all.take(i), p) + keep(all.skip(i), p));
    }
}

// ---------------------------------------------------------------------------
// The files of a project
// ---------------------------------------------------------------------------

/// Where the first file with this id stands at or after `i`; the length where none does.
pub open spec fn model_index(files: Seq<FileParts>, file_id: Seq<char>, i: int) -> int
    decreases files.len() - i,
{
    if i >= files.len() {
        files.len() as int
    } else if files[i].file_id == file_id {
        i
    } else {
        model_index(files, file_id, i + 1)
    }
}

pub open spec fn has_model(files: Seq<FileParts>, file_id: Seq<char>) -> bool {
    model_index(files, file_id, 0) < files.len()
}

proof fn lemma_model_index(files: Seq<FileParts>, file_id: Seq<char>, i: int)
    requires
        0 <= i <= files.len(),
    ensures
        i <= model_index(files, file_id, i) <= files.len(),
        model_index(files, file_id, i) < files.len() ==> files[model_index(
            files,
            file_id,
            i,
        )].file_id == file_id,
        forall|k: int|
            i <= k < model_index(files, file_id, i) ==> (#[trigger] files[k]).file_id != file_id,
    decreases files.len() - i,
{
    if i < files.len() && files[i].file_id != file_id {
        lemma_model_index(files, file_id, i + 1);
    }
}

/// Where a text stands in a list at or after `i`; the length where it does not.
pub open spec fn text_index(list: Seq<Seq<char>>, text: Seq<char>, i: int) -> int
    decreases list.len() - i,
{
    if i >= list.len() {
        list.len() as int
    } else if list[i] == text {
        i
    } else {
        text_index(list, text, i + 1)
    }
}

fn position_of(list: &Vec<String>, text: &str) -> (r: usize)
    ensures
        r == text_index(texts(list@), text@, 0),
        r <= list@.len(),
{
    let ghost all = texts(list@);
    for i in 0..list.len()
        invariant
            all == texts(list@),
            text_index(all, text@, 0) == text_index(all, text@, i as int),
    {
        assert(all[i as int] == list@[i as int]@);
        if same_text(list[i].as_str(), text) {
            return i;
        }
    }
    list.len()
}

/// A file that was just added, as the `n`th.
pub open spec fn fresh_file(n: int, path: Seq<char>, name: Seq<char>, schema: Schema) -> FileParts {
    FileParts {
        file_id: "f"@ + decimal(n as nat),
        path,
        extractor_name: name,
        display_name: shown_name(path),
        label: Seq::empty(),
        description: Seq::empty(),
        extractor: Some(schema),
        entries: Seq::empty(),
        loaded: false,
        error: Seq::empty(),
        sources: Seq::empty(),
        merged_from: Seq::empty(),
    }
}

/// The name of the schema that a file is added under, and the schemas after settling it.
pub open spec fn schema_choice(
    schemas: Seq<Schema>,
    asked: Option<Seq<char>>,
    lines: Option<Seq<Seq<char>>>,
) -> Result<(Seq<char>, Seq<Schema>), Seq<char>> {
    match asked {
        Some(name) => Ok((name, schemas)),
        None => match detected_for(schemas, lines) {
            Ok((s, after)) => Ok((s.name, after)),
            Err(e) => Err(e),
        },
    }
}

/// The file that is added, and the schemas after adding it.
pub open spec fn file_added(
    schemas: Seq<Schema>,
    n: int,
    path: Seq<char>,
    asked: Option<Seq<char>>,
    lines: Option<Seq<Seq<char>>>,
) -> Result<(FileParts, Seq<Schema>), Seq<char>> {
    match schema_choice(schemas, asked, lines) {
        Err(e) => Err(e),
        Ok((name, between)) => match resolved(between, name) {
            Err(e) => Err(e),
            Ok((schema, after)) => Ok((fresh_file(n, path, name, schema), after)),
        },
    }
}

/// What was read of a file, where it could be read.
pub open spec fn opt_texts(lines: Option<&Vec<String>>) -> Option<Seq<Seq<char>>> {
    match lines {
        Some(v) => Some(texts(v@)),
        None => None,
    }
}

impl Project {
    /// Add the file at the absolute `path`, and give back where it stands. `places` are the
    /// absolute paths of the files as they are now: one that is there already is not added
    /// again. Without a schema asked for, the file's first `lines` decide.
    pub fn add_file(
        &mut self,
        places: &Vec<String>,
        path: &str,
        asked: Option<&str>,
        lines: Option<&Vec<String>>,
    ) -> (r: Result<usize, String>)
        requires
            old(self).wf(),
            places@.len() == old(self).files@.len(),
            old(self).file_counter < usize::MAX,
        ensures
            ({
                let i = text_index(texts(places@), path@, 0);
                let n = old(self).file_counter + 1;
                if i < places@.len() {
                    r == Ok::<usize, String>(i as usize) && *final(self) == *old(self)
                } else {
                    match file_added(
                        old(self).schemas(),
                        n,
                        path@,
                        opt_str(asked),
                        opt_texts(lines),
                    ) {
                        Ok((file, schemas)) => {
                            &&& r == Ok::<usize, String>(old(self).files@.len() as usize)
                            &&& final(self).models() == old(self).models().push(file)
                            &&& final(self).schemas() == schemas
                            &&& final(self).file_counter == n
                        },
                        Err(e) => {
                            &&& r is Err
                            &&& r->Err_0@ == e
                            &&& final(self).models() == old(self).models()
                            &&& final(self).schemas() == old(self).schemas()
                            &&& final(self).file_counter == old(self).file_counter
                        },
                    }
                }
            }),
            final(self).keeps_the_rest(*old(self)),
            final(self).wf(),
    {
        let at: usize = position_of(places, path);
        if at < places.len() {
            return Ok(at);
        }
        let name = match asked {
            Some(name) => name.to_string(),
            None => match self.detect_extractor_for(lines) {
                Ok(extractor) => extractor.name.clone(),
                Err(error) => {
                    return Err(error);
                },
            },
        };
        let extractor = match self.get_extractor(name.as_str()) {
            Ok(extractor) => extractor,
            Err(error) => {
                proof {
                    lemma_settled(old(self).schemas(), opt_texts(lines));
                }
                return Err(error);
            },
        };
        let n: usize = self.file_counter + 1;
        let file_id = "f".to_string().concat(decimal_text(n as u64).as_str());
        let shown = display_name(path);
        let model = LogFileModel::new(
            file_id.as_str(),
            path,
            name.as_str(),
            shown.as_str(),
            Some(extractor),
        );
        let ghost added = model@;
        let ghost before = self.models();
        let index: usize = self.files.len();
        self.file_counter = n;
        self.files.push(model);
        assert(self.models() =~= before.push(added));
        assert(added =~= fresh_file(n as int, path@, name@, extractor@));
        Ok(index)
    }
}

/// Where a schema was settled, one can be resolved.
proof fn lemma_settled(schemas: Seq<Schema>, lines: Option<Seq<Seq<char>>>)
    ensures
        detected_for(schemas, lines) is Ok ==> {
            let after = (detected_for(schemas, lines)->Ok_0).1;
            after.len() > 0 && forall|name: Seq<char>| #[trigger] resolved(after, name) is Ok
        },
{
    if detected_for(schemas, lines) is Ok && schemas.len() == 0 && lines is Some {
        lemma_nothing_detected(lines->0);
    }
}

proof fn lemma_nothing_detected(lines: Seq<Seq<char>>)
    ensures
        detected(Seq::<Schema>::empty(), lines) is None,
{
}

// ---------------------------------------------------------------------------
// Text files
// ---------------------------------------------------------------------------

/// Whether the start of a file looks like text: it holds no NUL byte. That accepts
/// extensionless logs while skipping obvious binaries.
pub fn is_text_chunk(chunk: &[u8]) -> (r: bool)
    ensures
        r == !chunk@.contains(0u8),
{
    for i in 0..chunk.len()
        invariant
            forall|k: int| 0 <= k < i ==> (#[trigger] chunk@[k]) != 0u8,
    {
        if chunk[i] == 0 {
            assert(chunk@[i as int] == 0u8);
            return false;
        }
    }
    true
}

/// A file of a folder: its path, and how it starts where it could be read.
pub struct FolderFile {
    pub path: String,
    pub start: Option<Vec<u8>>,
}

/// The paths of the files that look like text.
pub open spec fn text_paths(files: Seq<FolderFile>) -> Seq<Seq<char>>
    decreases files.len(),
{
    if files.len() == 0 {
        Seq::empty()
    } else {
        let before = text_paths(files.drop_last());
        let f = files.last();
        if f.start is Some && !f.start->0@.contains(0u8) {
            before.push(f.path@)
        } else {
            before
        }
    }
}

/// The text files directly inside a folder, sorted by path.
pub fn text_files_in_dir(files: &Vec<FolderFile>) -> (r: Vec<String>)
    ensures
        texts(r@) == sorted_texts(text_paths(files@)),
{
    let mut out: Vec<String> = Vec::new();
    assert(texts(out@) =~= text_paths(files@.take(0)));
    for i in 0..files.len()
        invariant
            texts(out@) == text_paths(files@.take(i as int)),
    {
        assert(files@.take(i + 1).drop_last() =~= files@.take(i as int));
        assert(files@.take(i + 1).last() == files@[i as int]);
        if let Some(start) = &files[i].start {
            if is_text_chunk(start.as_slice()) {
                let ghost before = texts(out@);
                out.push(files[i].path.clone());
                assert(texts(out@) =~= before.push(files@[i as int].path@));
            }
        }
    }
    assert(files@.take(files@.len() as int) =~= files@);
    sort_texts(out)
}

/// A file to add: its absolute path, and its first lines where it could be read.
pub struct NewFile {
    pub path: String,
    pub lines: Option<Vec<String>>,
}

/// What was read of a file, where it could be read.
pub open spec fn held_lines(lines: Option<Vec<String>>) -> Option<Seq<Seq<char>>> {
    match lines {
        Some(v) => Some(texts(v@)),
        None => None,
    }
}

/// The state of adding files. The first file that cannot be added ends it.
#[verifier::ext_equal]
pub struct Adding {
    pub files: Seq<FileParts>,
    pub schemas: Seq<Schema>,
    pub places: Seq<Seq<char>>,
    pub counter: int,
    pub failed: Option<Seq<char>>,
}

impl Adding {
    /// The state after one more file.
    pub open spec fn step(self, file: NewFile) -> Adding {
        let lines = held_lines(file.lines);
        if self.failed is Some || text_index(self.places, file.path@, 0) < self.places.len() {
            self
        } else {
            match file_added(self.schemas, self.counter + 1, file.path@, None, lines) {
                Ok((added, schemas)) => Adding {
                    files: self.files.push(added),
                    schemas,
                    places: self.places.push(file.path@),
                    counter: self.counter + 1,
                    failed: None,
                },
                Err(e) => Adding { failed: Some(e), ..self },
            }
        }
    }

    pub open spec fn steps(self, files: Seq<NewFile>) -> Adding
        decreases files.len(),
    {
        if files.len() == 0 {
            self
        } else {
            self.steps(files.drop_last()).step(files.last())
        }
    }
}

impl Project {
    /// Add a folder's text files, each under the schema that its first lines suggest, and give
    /// back how many were new. `places` are the absolute paths of the files as they are now. A
    /// file cannot be added only where the project has no schema and the built-in one cannot be
    /// had.
    pub fn add_text_files(&mut self, places: &Vec<String>, files: &Vec<NewFile>) -> (r: Result<
        usize,
        String,
    >)
        requires
            old(self).wf(),
            places@.len() == old(self).files@.len(),
            old(self).file_counter + files@.len() <= usize::MAX,
        ensures
            ({
                let done = (Adding {
                    files: old(self).models(),
                    schemas: old(self).schemas(),
                    places: texts(places@),
                    counter: old(self).file_counter as int,
                    failed: None,
                }).steps(files@);
                &&& final(self).models() == done.files
                &&& final(self).schemas() == done.schemas
                &&& final(self).file_counter == done.counter
                &&& match r {
                    Ok(n) => done.failed is None && n == done.files.len() - old(self).files@.len(),
                    Err(e) => done.failed == Some(e@),
                }
            }),
            final(self).keeps_the_rest(*old(self)),
            final(self).wf(),
    {
        let ghost start = Adding {
            files: self.models(),
            schemas: self.schemas(),
            places: texts(places@),
            counter: self.file_counter as int,
            failed: None,
        };
        let mut known = clone_strings(places);
        let mut added: usize = 0;
        assert(files@.take(0) =~= Seq::<NewFile>::empty());
        for i in 0..files.len()
            invariant
                self.wf(),
                self.keeps_the_rest(*old(self)),
                known@.len() == self.files@.len(),
                added <= i,
                self.file_counter <= old(self).file_counter + i,
                old(self).file_counter + files@.len() <= usize::MAX,
                added == self.files@.len() - old(self).files@.len(),
                start == (Adding {
                    files: old(self).models(),
                    schemas: old(self).schemas(),
                    places: texts(places@),
                    counter: old(self).file_counter as int,
                    failed: None,
                }),
                start.steps(files@.take(i as int)) == (Adding {
                    files: self.models(),
                    schemas: self.schemas(),
                    places: texts(known@),
                    counter: self.file_counter as int,
                    failed: None,
                }),
        {
            let ghost before = start.steps(files@.take(i as int));
            assert(files@.take(i + 1).drop_last() =~= files@.take(i as int));
            assert(files@.take(i + 1).last() == files@[i as int]);
            let file = &files[i];
            let count: usize = self.files.len();
            match self.add_file(&known, file.path.as_str(), None, file.lines.as_ref()) {
                Err(error) => {
                    proof {
                        assert(start.steps(files@.take(i + 1)) == (Adding {
                            failed: Some(error@),
                            ..before
                        }));
                        lemma_failed_stays(start, files@, i + 1);
                    }
                    return Err(error);
                },
                Ok(_) => {},
            }
            assert(self.models().len() == self.files@.len());
            if self.files.len() > count {
                let ghost so_far = texts(known@);
                known.push(file.path.clone());
                assert(texts(known@) =~= so_far.push(file.path@));
                added = added + 1;
            }
            assert(start.steps(files@.take(i + 1)) == before.step(files@[i as int]));
        }
        assert(files@.take(files@.len() as int) =~= files@);
        Ok(added)
    }
}

/// Once a file could not be added, nothing more is.
proof fn lemma_failed_stays(start: Adding, files: Seq<NewFile>, n: int)
    requires
        0 <= n <= files.len(),
        start.steps(files.take(n)).failed is Some,
    ensures
        start.steps(files) == start.steps(files.take(n)),
    decreases files.len() - n,
{
    if n == files.len() {
        assert(files.take(n) =~= files);
    } else {
        assert(files.take(n + 1).drop_last() =~= files.take(n));
        assert(start.steps(files.take(n + 1)) == start.steps(files.take(n)));
        lemma_failed_stays(start, files, n + 1);
    }
}

// ---------------------------------------------------------------------------
// Finding and removing files
// ---------------------------------------------------------------------------

/// Files that are neither this one nor merged from it.
pub open spec fn apart_from(file_id: Seq<char>) -> spec_fn(FileParts) -> bool {
    |f: FileParts| f.file_id != file_id && !f.merged_from.contains(file_id)
}

/// Files that are not merged from this one.
pub open spec fn not_merged_from(file_id: Seq<char>) -> spec_fn(FileParts) -> bool {
    |f: FileParts| !f.merged_from.contains(file_id)
}

/// Drop the files merged from `file_id`, and with `itself` that file too.
fn drop_files(files: &mut Vec<LogFileModel>, file_id: &str, itself: bool)
    ensures
        models(final(files)@) == keep(
            models(old(files)@),
            if itself {
                apart_from(file_id@)
            } else {
                not_merged_from(file_id@)
            },
        ),
{
    let ghost all = models(files@);
    let ghost p = if itself {
        apart_from(file_id@)
    } else {
        not_merged_from(file_id@)
    };
    let ghost mut seen: int = 0;
    let mut i: usize = 0;
    assert(models(files@) =~= keep(all.take(0), p) + all.skip(0));
    while i < files.len()
        invariant
            0 <= seen <= all.len(),
            i == keep(all.take(seen), p).len(),
            models(files@) == keep(all.take(seen), p) + all.skip(seen),
            p == if itself {
                apart_from(file_id@)
            } else {
                not_merged_from(file_id@)
            },
        decreases all.len() - seen,
    {
        let ghost now = models(files@);
        assert(now.len() == i + (all.len() - seen));
        assert(now[i as int] == files@[i as int]@);
        assert(now[i as int] == all.skip(seen)[0]);
        assert(all.take(seen + 1).drop_last() =~= all.take(seen));
        assert(all.take(seen + 1).last() == all[seen]);
        let derived = list_has(files[i].merged_from.as_slice(), file_id);
        let own = itself && same_text(files[i].file_id.as_str(), file_id);
        if derived || own {
            let gone = files.remove(i);
            assert(models(files@) =~= now.remove(i as int));
            assert(models(files@) =~= keep(all.take(seen + 1), p) + all.skip(seen + 1));
        } else {
            assert(now =~= keep(all.take(seen + 1), p) + all.skip(seen + 1));
            i = i + 1;
        }
        proof {
            seen = seen + 1;
        }
    }
    proof {
        assert(all.skip(seen).len() == 0);
        assert(all.take(seen) =~= all);
        assert(models(files@) =~= keep(all, p));
    }
}

impl Project {
    /// Remove a file, and the merged views over it: they no longer reflect the project.
    pub fn remove_file(&mut self, file_id: &str)
        ensures
            final(self).models() == keep(old(self).models(), apart_from(file_id@)),
            final(self).extractors == old(self).extractors,
            final(self).file_counter == old(self).file_counter,
            final(self).keeps_the_rest(*old(self)),
    {
        drop_files(&mut self.files, file_id, true);
    }

    fn model_position(&self, file_id: &str) -> (r: usize)
        ensures
            r == model_index(self.models(), file_id@, 0),
            r <= self.files@.len(),
    {
        let ghost all = self.models();
        for i in 0..self.files.len()
            invariant
                all == self.models(),
                model_index(all, file_id@, 0) == model_index(all, file_id@, i as int),
        {
            assert(all[i as int] == self.files@[i as int]@);
            if same_text(self.files[i].file_id.as_str(), file_id) {
                return i;
            }
        }
        self.files.len()
    }

    pub fn get_file(&self, file_id: &str) -> (r: Option<&LogFileModel>)
        ensures
            match r {
                Some(f) => has_model(self.models(), file_id@) && *f
                    == self.files@[model_index(self.models(), file_id@, 0)],
                None => !has_model(self.models(), file_id@),
            },
    {
        let i: usize = self.model_position(file_id);
        proof {
            lemma_model_index(self.models(), file_id@, 0);
        }
        if i < self.files.len() {
            Some(&self.files[i])
        } else {
            None
        }
    }

    pub fn get_file_mut(&mut self, file_id: &str) -> (r: Option<&mut LogFileModel>)
        ensures
            match r {
                Some(f) => {
                    let i = model_index(old(self).models(), file_id@, 0);
                    &&& has_model(old(self).models(), file_id@)
                    &&& *f == old(self).files@[i]
                    &&& final(self).files@ == old(self).files@.update(i, *final(f))
                    &&& final(self).extractors == old(self).extractors
                    &&& final(self).file_counter == old(self).file_counter
                    &&& final(self).keeps_the_rest(*old(self))
                },
                None => !has_model(old(self).models(), file_id@) && *final(self) == *old(self),
            },
    {
        let i: usize = self.model_position(file_id);
        proof {
            lemma_model_index(self.models(), file_id@, 0);
        }
        if i < self.files.len() {
            Some(&mut self.files[i])
        } else {
            None
        }
    }

    pub fn file_index(&self, file_id: &str) -> (r: Option<usize>)
        ensures
            r == if has_model(self.models(), file_id@) {
                Some(model_index(self.models(), file_id@, 0) as usize)
            } else {
                None
            },
    {
        let i: usize = self.model_position(file_id);
        if i < self.files.len() {
            Some(i)
        } else {
            None
        }
    }

    /// A path as seen from the project's folder.
    pub fn rel(&self, path: &str) -> (r: String)
        ensures
            r@ == relative(self.root@, path@),
    {
        relative_path(self.root.as_str(), path)
    }
}

// ---------------------------------------------------------------------------
// Merging files
// ---------------------------------------------------------------------------

/// Why the files from `i` on cannot be merged, if they cannot.
pub open spec fn source_error(files: Seq<FileParts>, ids: Seq<Seq<char>>, i: int) -> Option<
    Seq<char>,
>
    decreases ids.len() - i,
{
    if i >= ids.len() {
        None
    } else if !has_model(files, ids[i]) {
        Some("unknown file "@ + ids[i])
    } else {
        let file = files[model_index(files, ids[i], 0)];
        if file.merged_from.len() > 0 {
            Some("cannot merge a merged view"@)
        } else if !file.loaded {
            Some(file.display_name + " is still loading"@)
        } else {
            source_error(files, ids, i + 1)
        }
    }
}

/// Why files cannot be merged, if they cannot.
pub open spec fn merge_refusal(files: Seq<FileParts>, ids: Seq<Seq<char>>) -> Option<Seq<char>> {
    if ids.len() < 2 {
        Some("select at least two files to merge"@)
    } else {
        source_error(files, ids, 0)
    }
}

/// Where the first merge of exactly these files stands at or after `i`; the length where there
/// is none.
pub open spec fn merge_index(files: Seq<FileParts>, ids: Seq<Seq<char>>, i: int) -> int
    decreases files.len() - i,
{
    if i >= files.len() {
        files.len() as int
    } else if files[i].merged_from == ids {
        i
    } else {
        merge_index(files, ids, i + 1)
    }
}

/// The files with these ids.
pub open spec fn files_named(files: Seq<FileParts>, ids: Seq<Seq<char>>) -> Seq<FileParts> {
    ids.map_values(|id: Seq<char>| files[model_index(files, id, 0)])
}

fn same_list(a: &Vec<String>, b: &[String]) -> (r: bool)
    ensures
        r == (texts(a@) == texts(b@)),
{
    if a.len() != b.len() {
        assert(texts(a@).len() != texts(b@).len());
        return false;
    }
    for i in 0..a.len()
        invariant
            a@.len() == b@.len(),
            forall|k: int| 0 <= k < i ==> (#[trigger] a@[k])@ == b@[k]@,
    {
        if !same_text(a[i].as_str(), b[i].as_str()) {
            assert(texts(a@)[i as int] != texts(b@)[i as int]);
            return false;
        }
    }
    assert(texts(a@) =~= texts(b@));
    true
}

impl Project {
    fn merge_position(&self, ids: &[String]) -> (r: usize)
        ensures
            r == merge_index(self.models(), texts(ids@), 0),
            r <= self.files@.len(),
    {
        let ghost all = self.models();
        for i in 0..self.files.len()
            invariant
                all == self.models(),
                merge_index(all, texts(ids@), 0) == merge_index(all, texts(ids@), i as int),
        {
            assert(all[i as int] == self.files@[i as int]@);
            if same_list(&self.files[i].merged_from, ids) {
                return i;
            }
        }
        self.files.len()
    }

    /// Build a timestamp-ordered merge of `file_ids` and add it as a virtual file. Gives back its
    /// id, or an error naming what is not ready yet. A merge of exactly these files is reused.
    pub fn add_merged(&mut self, file_ids: &[String]) -> (r: Result<String, String>)
        requires
            old(self).file_counter < usize::MAX,
            file_ids@.len() <= 65536,
        ensures
            ({
                let files = old(self).models();
                let ids = texts(file_ids@);
                let n = old(self).file_counter + 1;
                match merge_refusal(files, ids) {
                    Some(e) => r is Err && r->Err_0@ == e && *final(self) == *old(self),
                    None => if merge_index(files, ids, 0) < files.len() {
                        r is Ok && r->Ok_0@ == files[merge_index(files, ids, 0)].file_id
                            && *final(self) == *old(self)
                    } else {
                        &&& r is Ok
                        &&& r->Ok_0@ == "m"@ + decimal(n as nat)
                        &&& final(self).models() == files.push(
                            merged("m"@ + decimal(n as nat), files_named(files, ids)),
                        )
                        &&& final(self).file_counter == n
                        &&& final(self).extractors == old(self).extractors
                        &&& final(self).keeps_the_rest(*old(self))
                    },
                }
            }),
    {
        let ghost files = self.models();
        let ghost ids = texts(file_ids@);
        if file_ids.len() < 2 {
            return Err("select at least two files to merge".to_string());
        }
        let mut sources: Vec<&LogFileModel> = Vec::new();
        for i in 0..file_ids.len()
            invariant
                files == self.models(),
                *self == *old(self),
                ids == texts(file_ids@),
                ids.len() >= 2,
                sources@.len() == i,
                source_error(files, ids, 0) == source_error(files, ids, i as int),
                forall|k: int|
                    0 <= k < i ==> (#[trigger] sources@[k])@ == files[model_index(files, ids[k], 0)],
        {
            let id = file_ids[i].as_str();
            assert(ids[i as int] == id@);
            match self.get_file(id) {
                None => {
                    return Err("unknown file ".to_string().concat(id));
                },
                Some(file) => {
                    proof {
                        lemma_model_index(files, id@, 0);
                        assert(file@ == files[model_index(files, id@, 0)]);
                    }
                    if file.is_merged() {
                        return Err("cannot merge a merged view".to_string());
                    }
                    if !file.loaded {
                        return Err(file.display_name.clone().concat(" is still loading"));
                    }
                    sources.push(file);
                },
            }
        }
        let at: usize = self.merge_position(file_ids);
        if at < self.files.len() {
            assert(files[at as int] == self.files@[at as int]@);
            return Ok(self.files[at].file_id.clone());
        }
        let n: usize = self.file_counter + 1;
        let file_id = "m".to_string().concat(decimal_text(n as u64).as_str());
        let whole = merge_files(file_id.as_str(), sources.as_slice());
        assert(file_views(sources@) =~= files_named(files, ids));
        let ghost built = whole@;
        self.file_counter = n;
        self.files.push(whole);
        assert(self.models() =~= files.push(built));
        Ok(file_id)
    }
}

// ---------------------------------------------------------------------------
// Schemas of files
// ---------------------------------------------------------------------------

/// A file pointed at another schema: it has to be read again.
pub open spec fn repointed(file: FileParts, name: Seq<char>, schema: Schema) -> FileParts {
    FileParts {
        extractor_name: name,
        extractor: Some(schema),
        loaded: false,
        entries: Seq::empty(),
        ..file
    }
}

/// A file whose schema explains none of its first lines, under the one that does; any other
/// stays as it is.
pub open spec fn redetected(
    schemas: Seq<Schema>,
    file: FileParts,
    lines: Option<Seq<Seq<char>>>,
) -> FileParts {
    if file.merged_from.len() > 0 || file.loaded || lines is None || all_blank(lines->0) {
        file
    } else if file.extractor is Some && file.extractor->0.coverage(lines->0).0 > 0 {
        file
    } else {
        match detected(schemas, lines->0) {
            Some(better) => if better.name == file.extractor_name {
                file
            } else {
                FileParts {
                    extractor_name: better.name,
                    extractor: Some(better),
                    ..file
                }
            },
            None => file,
        }
    }
}

/// Whether every line is blank.
pub open spec fn all_blank(lines: Seq<Seq<char>>) -> bool {
    forall|i: int| 0 <= i < lines.len() ==> is_blank(#[trigger] lines[i])
}

fn lines_are_blank(lines: &Vec<String>) -> (r: bool)
    ensures
        r == all_blank(texts(lines@)),
{
    for i in 0..lines.len()
        invariant
            forall|k: int| 0 <= k < i ==> is_blank(#[trigger] texts(lines@)[k]),
    {
        assert(texts(lines@)[i as int] == lines@[i as int]@);
        if !blank(lines[i].as_str()) {
            return false;
        }
    }
    true
}

/// What was read of each file, where it could be read.
pub open spec fn opt_lines(v: Seq<Option<Vec<String>>>) -> Seq<Option<Seq<Seq<char>>>> {
    v.map_values(|o: Option<Vec<String>>| held_lines(o))
}

/// The files after looking at their first lines.
pub open spec fn all_redetected(
    schemas: Seq<Schema>,
    files: Seq<FileParts>,
    heads: Seq<Option<Seq<Seq<char>>>>,
) -> Seq<FileParts> {
    files.map(|i: int, f: FileParts| redetected(schemas, f, heads[i]))
}

impl Project {
    /// Point a file at a different schema. The caller must read the file again: what belongs to
    /// one entry depends on the schema. Merged views over the file are dropped.
    pub fn set_file_extractor(&mut self, file_id: &str, extractor_name: &str) -> (r: Result<
        (),
        String,
    >)
        requires
            old(self).wf(),
        ensures
            ({
                let files = old(self).models();
                let i = model_index(files, file_id@, 0);
                match resolved(old(self).schemas(), extractor_name@) {
                    Err(e) => {
                        &&& r is Err
                        &&& r->Err_0@ == e
                        &&& final(self).models() == files
                        &&& final(self).schemas() == old(self).schemas()
                    },
                    Ok((schema, schemas)) => {
                        &&& final(self).schemas() == schemas
                        &&& if i >= files.len() {
                            &&& r is Err
                            &&& r->Err_0@ == "unknown file "@ + file_id@
                            &&& final(self).models() == files
                        } else if files[i].merged_from.len() > 0 {
                            &&& r is Err
                            &&& r->Err_0@ == "a merged view takes each file's own schema"@
                            &&& final(self).models() == files
                        } else {
                            &&& r is Ok
                            &&& final(self).models() == keep(
                                files.update(i, repointed(files[i], extractor_name@, schema)),
                                not_merged_from(file_id@),
                            )
                        }
                    },
                }
            }),
            final(self).file_counter == old(self).file_counter,
            final(self).keeps_the_rest(*old(self)),
            final(self).wf(),
    {
        let extractor = match self.get_extractor(extractor_name) {
            Ok(extractor) => extractor,
            Err(error) => {
                return Err(error);
            },
        };
        let ghost files = self.models();
        let ghost schema = extractor@;
        let i: usize = self.model_position(file_id);
        if i >= self.files.len() {
            return Err("unknown file ".to_string().concat(file_id));
        }
        assert(files[i as int] == self.files@[i as int]@);
        if self.files[i].is_merged() {
            return Err("a merged view takes each file's own schema".to_string());
        }
        {
            let file = &mut self.files[i];
            file.extractor_name = extractor_name.to_string();
            file.refresh_extractor(Some(extractor));
            file.loaded = false;
            file.entries = Vec::new();
            assert(file@ =~= repointed(files[i as int], extractor_name@, schema));
        }
        assert(self.models() =~= files.update(
            i as int,
            repointed(files[i as int], extractor_name@, schema),
        ));
        drop_files(&mut self.files, file_id, false);
        Ok(())
    }

    /// Re-detect any not-yet-loaded file whose schema explains none of its first lines. A schema
    /// that matches nothing is never a deliberate choice: under it the file would load as a
    /// single entry without a time.
    pub fn redetect_mismatched_schemas(&mut self, heads: &Vec<Option<Vec<String>>>)
        requires
            heads@.len() == old(self).files@.len(),
        ensures
            final(self).models() == all_redetected(
                old(self).schemas(),
                old(self).models(),
                opt_lines(heads@),
            ),
            final(self).extractors == old(self).extractors,
            final(self).file_counter == old(self).file_counter,
            final(self).keeps_the_rest(*old(self)),
    {
        let ghost before = self.models();
        let ghost schemas = self.schemas();
        let ghost views = opt_lines(heads@);
        for i in 0..heads.len()
            invariant
                heads@.len() == self.files@.len(),
                before.len() == heads@.len(),
                before == old(self).models(),
                schemas == self.schemas(),
                views == opt_lines(heads@),
                self.extractors == old(self).extractors,
                self.file_counter == old(self).file_counter,
                self.keeps_the_rest(*old(self)),
                forall|k: int|
                    0 <= k < i ==> (#[trigger] self.files@[k])@ == redetected(
                        schemas,
                        before[k],
                        views[k],
                    ),
                forall|k: int| i <= k < before.len() ==> (#[trigger] self.files@[k])@ == before[k],
        {
            let better = self.better_schema(i, &heads[i]);
            let ghost now = self.files@;
            assert(now[i as int]@ == before[i as int]);
            if let Some(better) = better {
                let ghost schema = better@;
                let file = &mut self.files[i];
                file.extractor_name = better.name.clone();
                file.refresh_extractor(Some(better));
                assert(file@ =~= redetected(schemas, before[i as int], views[i as int]));
            }
        }
        assert(self.models() =~= all_redetected(schemas, before, views));
    }

    /// The schema that a file is better read under, if there is one.
    fn better_schema(&self, i: usize, head: &Option<Vec<String>>) -> (r: Option<Extractor>)
        requires
            i < self.files@.len(),
        ensures
            ({
                let file = self.files@[i as int]@;
                let after = redetected(self.schemas(), file, held_lines(*head));
                match r {
                    Some(e) => after == (FileParts {
                        extractor_name: e@.name,
                        extractor: Some(e@),
                        ..file
                    }),
                    None => after == file,
                }
            }),
    {
        let file = &self.files[i];
        if file.is_merged() || file.loaded {
            return None;
        }
        match head {
            None => None,
            Some(lines) => {
                if lines_are_blank(lines) {
                    return None;
                }
                if let Some(extractor) = &file.extractor {
                    if extractor.match_score(lines.as_slice()) > 0 {
                        return None;
                    }
                }
                let candidates = self.references();
                match detect(candidates.as_slice(), lines.as_slice()) {
                    None => None,
                    Some(better) => if same_text(
                        better.name.as_str(),
                        file.extractor_name.as_str(),
                    ) {
                        None
                    } else {
                        Some(better.clone())
                    },
                }
            },
        }
    }
}

// ---------------------------------------------------------------------------
// Loading files
// ---------------------------------------------------------------------------

/// The schema that a name stands for, in a project that has schemas.
pub open spec fn meant(schemas: Seq<Schema>, name: Seq<char>) -> Schema {
    if has_schema(schemas, name) {
        schemas[schema_index(schemas, name, 0)]
    } else {
        fallback(schemas)->0
    }
}

/// A file with the schema that its name stands for; a merged view has none of its own.
pub open spec fn refreshed(schemas: Seq<Schema>, file: FileParts) -> FileParts {
    if file.merged_from.len() > 0 {
        file
    } else {
        FileParts { extractor: Some(meant(schemas, file.extractor_name)), ..file }
    }
}

/// Whether a file is still to be read.
pub open spec fn unread(file: FileParts) -> bool {
    file.merged_from.len() == 0 && !file.loaded && file.error.len() == 0
}

/// A file after it was read, or failed to be; one that is not to be read stays as it is.
pub open spec fn after_reading(file: FileParts, read: Result<Seq<Seq<char>>, Seq<char>>) -> FileParts {
    if !unread(file) {
        file
    } else {
        match read {
            Ok(lines) => FileParts {
                entries: grouped(
                    lines,
                    match file.extractor {
                        Some(s) => seq![s],
                        None => Seq::empty(),
                    },
                ),
                loaded: true,
                ..file
            },
            Err(e) => FileParts { error: "read error: "@ + e, ..file },
        }
    }
}

/// What came of reading a file.
pub open spec fn read_view(read: Result<Vec<String>, String>) -> Result<Seq<Seq<char>>, Seq<char>> {
    match read {
        Ok(lines) => Ok(texts(lines@)),
        Err(e) => Err(e@),
    }
}

proof fn lemma_meant(schemas: Seq<Schema>, name: Seq<char>)
    requires
        schemas.len() > 0,
    ensures
        resolved(schemas, name) == Ok::<(Schema, Seq<Schema>), Seq<char>>(
            (meant(schemas, name), schemas),
        ),
{
}

impl Project {
    /// Give each file the schema that its name stands for.
    pub fn refresh_schemas(&mut self) -> (r: Result<(), String>)
        requires
            old(self).wf(),
        ensures
            match r {
                Err(e) => {
                    &&& old(self).files@.len() > 0
                    &&& settled(old(self).schemas()) == Err::<(Schema, Seq<Schema>), Seq<char>>(
                        e@,
                    )
                    &&& final(self).models() == old(self).models()
                    &&& final(self).schemas() == old(self).schemas()
                },
                Ok(_) => {
                    &&& old(self).files@.len() > 0 ==> settled(old(self).schemas()) is Ok
                    &&& final(self).schemas() == if old(self).files@.len() == 0 {
                        old(self).schemas()
                    } else {
                        (settled(old(self).schemas())->Ok_0).1
                    }
                    &&& final(self).models() == old(self).models().map_values(
                        |f: FileParts| refreshed(final(self).schemas(), f),
                    )
                },
            },
            final(self).file_counter == old(self).file_counter,
            final(self).keeps_the_rest(*old(self)),
            final(self).wf(),
    {
        let ghost before = self.models();
        if self.files.len() == 0 {
            assert(self.models() =~= before.map_values(
                |f: FileParts| refreshed(self.schemas(), f),
            ));
            return Ok(());
        }
        if let Err(error) = self.default_extractor_obj() {
            return Err(error);
        }
        let ghost schemas = self.schemas();
        assert(schemas.len() > 0);
        let total: usize = self.files.len();
        for i in 0..total
            invariant
                self.wf(),
                total == self.files@.len(),
                before.len() == total,
                schemas == self.schemas(),
                schemas.len() > 0,
                self.file_counter == old(self).file_counter,
                self.keeps_the_rest(*old(self)),
                forall|k: int|
                    0 <= k < i ==> (#[trigger] self.files@[k])@ == refreshed(schemas, before[k]),
                forall|k: int| i <= k < total ==> (#[trigger] self.files@[k])@ == before[k],
        {
            assert(self.files@[i as int]@ == before[i as int]);
            if !self.files[i].is_merged() {
                let name = self.files[i].extractor_name.clone();
                proof {
                    lemma_meant(schemas, name@);
                }
                if let Ok(extractor) = self.get_extractor(name.as_str()) {
                    let ghost schema = extractor@;
                    let file = &mut self.files[i];
                    file.refresh_extractor(Some(extractor));
                    assert(file@ =~= refreshed(schemas, before[i as int]));
                }
            }
        }
        assert(self.models() =~= before.map_values(|f: FileParts| refreshed(schemas, f)));
        Ok(())
    }

    /// Take what came of reading the file at `i`. A merged view, or a file that was read
    /// before, stays as it is.
    pub fn load_file(&mut self, i: usize, read: &Result<Vec<String>, String>)
        requires
            i < old(self).files@.len(),
        ensures
            final(self).models() == old(self).models().update(
                i as int,
                after_reading(old(self).models()[i as int], read_view(*read)),
            ),
            final(self).extractors == old(self).extractors,
            final(self).file_counter == old(self).file_counter,
            final(self).keeps_the_rest(*old(self)),
    {
        let ghost before = self.models();
        assert(before[i as int] == self.files@[i as int]@);
        let file = &self.files[i];
        if file.is_merged() || file.loaded || file.error.as_str().unicode_len() > 0 {
            assert(self.models() =~= before.update(i as int, before[i as int]));
            return;
        }
        {
            let file = &mut self.files[i];
            match read {
                Ok(lines) => {
                    file.load_from_lines(lines.as_slice());
                },
                Err(error) => {
                    file.error = "read error: ".to_string().concat(error.as_str());
                },
            }
            assert(file@ =~= after_reading(before[i as int], read_view(*read)));
        }
        assert(self.models() =~= before.update(
            i as int,
            after_reading(before[i as int], read_view(*read)),
        ));
    }

    /// Read every file that is still to be read: `heads` are the files' first lines, and
    /// `contents` what came of reading them whole.
    pub fn load_all_files(
        &mut self,
        heads: &Vec<Option<Vec<String>>>,
        contents: &Vec<Result<Vec<String>, String>>,
    ) -> (r: Result<(), String>)
        requires
            old(self).wf(),
            heads@.len() == old(self).files@.len(),
            contents@.len() == old(self).files@.len(),
        ensures
            ({
                let found = all_redetected(
                    old(self).schemas(),
                    old(self).models(),
                    opt_lines(heads@),
                );
                match r {
                    Err(e) => {
                        &&& old(self).files@.len() > 0
                        &&& settled(old(self).schemas()) == Err::<(Schema, Seq<Schema>), Seq<char>>(
                            e@,
                        )
                        &&& final(self).models() == found
                        &&& final(self).schemas() == old(self).schemas()
                    },
                    Ok(_) => {
                        &&& old(self).files@.len() > 0 ==> settled(old(self).schemas()) is Ok
                        &&& final(self).schemas() == if old(self).files@.len() == 0 {
                            old(self).schemas()
                        } else {
                            (settled(old(self).schemas())->Ok_0).1
                        }
                        &&& final(self).models() == all_loaded(
                            final(self).schemas(),
                            found,
                            contents@.map_values(|c: Result<Vec<String>, String>| read_view(c)),
                        )
                    },
                }
            }),
            final(self).file_counter == old(self).file_counter,
            final(self).keeps_the_rest(*old(self)),
            final(self).wf(),
    {
        self.redetect_mismatched_schemas(heads);
        let ghost found = self.models();
        assert(self.files@.len() == found.len());
        match self.refresh_schemas() {
            Err(error) => {
                return Err(error);
            },
            Ok(_) => {},
        }
        let ghost schemas = self.schemas();
        let ghost ready = self.models();
        let ghost reads = contents@.map_values(|c: Result<Vec<String>, String>| read_view(c));
        assert(self.files@.len() == self.models().len());
        for i in 0..contents.len()
            invariant
                self.wf(),
                contents@.len() == self.files@.len(),
                found.len() == contents@.len(),
                ready == found.map_values(|f: FileParts| refreshed(schemas, f)),
                reads == contents@.map_values(|c: Result<Vec<String>, String>| read_view(c)),
                schemas == self.schemas(),
                self.file_counter == old(self).file_counter,
                self.keeps_the_rest(*old(self)),
                forall|k: int|
                    0 <= k < i ==> (#[trigger] self.models()[k]) == after_reading(
                        ready[k],
                        reads[k],
                    ),
                forall|k: int| i <= k < found.len() ==> (#[trigger] self.models()[k]) == ready[k],
        {
            self.load_file(i, &contents[i]);
            assert(self.files@.len() == self.models().len());
        }
        assert(self.models() =~= all_loaded(schemas, found, reads));
        Ok(())
    }
}

/// The files after each was given its schema, and read where it was still to be read.
pub open spec fn all_loaded(
    schemas: Seq<Schema>,
    files: Seq<FileParts>,
    reads: Seq<Result<Seq<Seq<char>>, Seq<char>>>,
) -> Seq<FileParts> {
    files.map(|i: int, f: FileParts| after_reading(refreshed(schemas, f), reads[i]))
}

// ---------------------------------------------------------------------------
// Saving and opening
// ---------------------------------------------------------------------------

/// A file as it is saved.
#[derive(Debug, PartialEq, Eq)]
pub struct FileData {
    pub file_id: String,
    pub path: String,
    pub extractor_name: String,
    pub display_name: String,
    pub label: String,
    pub description: String,
}

/// What is saved of a file.
#[verifier::ext_equal]
pub struct SavedFile {
    pub file_id: Seq<char>,
    pub path: Seq<char>,
    pub extractor_name: Seq<char>,
    pub display_name: Seq<char>,
    pub label: Seq<char>,
    pub description: Seq<char>,
}

impl View for FileData {
    type V = SavedFile;

    open spec fn view(&self) -> SavedFile {
        SavedFile {
            file_id: self.file_id@,
            path: self.path@,
            extractor_name: self.extractor_name@,
            display_name: self.display_name@,
            label: self.label@,
            description: self.description@,
        }
    }
}

pub open spec fn saved_views(v: Seq<FileData>) -> Seq<SavedFile> {
    v.map_values(|f: FileData| f@)
}

/// What is saved of a file, with its path as seen from the project's folder.
pub open spec fn saved(root: Seq<char>, file: FileParts) -> SavedFile {
    SavedFile {
        file_id: file.file_id,
        path: relative(root, file.path),
        extractor_name: file.extractor_name,
        display_name: file.display_name,
        label: file.label,
        description: file.description,
    }
}

/// Files that are on disk, and not merged from others.
pub open spec fn on_disk() -> spec_fn(FileParts) -> bool {
    |f: FileParts| f.merged_from.len() == 0
}

/// A project as it is saved.
pub struct ProjectData {
    pub version: u32,
    pub file_counter: usize,
    pub files: Vec<FileData>,
    pub extractors: Vec<Extractor>,
    pub saved_searches: Vec<String>,
    pub filters: FilterSet,
    pub session: Option<Session>,
    pub settings: Json,
}

/// What is saved of a project.
pub open spec fn saved_as(p: Project, data: ProjectData) -> bool {
    &&& data.version == 1
    &&& data.file_counter == p.file_counter
    &&& saved_views(data.files@) == keep(p.models(), on_disk()).map_values(
        |f: FileParts| saved(p.root@, f),
    )
    &&& schemas_of(data.extractors@) == p.schemas()
    &&& data.saved_searches@ == p.saved_searches@
    &&& data.filters.rules@ == p.filters.rules@
    &&& session_view(data.session) == session_view(p.session)
    &&& data.settings@ == p.settings@
}

/// A schema with the old bracketed format brought up to date: under it, every error line with a
/// code in brackets mis-parses its level.
pub open spec fn healed(schema: Schema) -> Schema {
    if schema.format == BRACKETED_LEGACY_FORMAT@ {
        Schema { format: BRACKETED_DEFAULT_FORMAT@, ..schema }
    } else {
        schema
    }
}

/// The schemas with the saved ones put among them; one whose patterns cannot be built is left
/// out.
pub open spec fn opened_schemas(schemas: Seq<Schema>, saved: Seq<Schema>) -> Seq<Schema>
    decreases saved.len(),
{
    if saved.len() == 0 {
        schemas
    } else {
        let before = opened_schemas(schemas, saved.drop_last());
        let schema = healed(saved.last());
        if schema.build_error() is None {
            with_schema(before, schema.built())
        } else {
            before
        }
    }
}

/// A saved file at its absolute place.
pub open spec fn opened(schemas: Seq<Schema>, file: SavedFile, place: Seq<char>) -> FileParts {
    FileParts {
        file_id: file.file_id,
        path: place,
        extractor_name: file.extractor_name,
        display_name: if file.display_name.len() == 0 {
            shown_name(place)
        } else {
            file.display_name
        },
        label: file.label,
        description: file.description,
        extractor: Some(meant(schemas, file.extractor_name)),
        entries: Seq::empty(),
        loaded: false,
        error: Seq::empty(),
        sources: Seq::empty(),
        merged_from: Seq::empty(),
    }
}

/// Where a saved file is to be looked for.
pub fn file_place(root: &str, path: &str) -> (r: String)
    ensures
        r@ == joined(root@, path@),
{
    join_path(root, path)
}

impl Project {
    /// The files to save. Merged views are derived, not files on disk; they are rebuilt on
    /// demand.
    pub fn saved_files(&self) -> (r: Vec<FileData>)
        ensures
            saved_views(r@) == keep(self.models(), on_disk()).map_values(
                |f: FileParts| saved(self.root@, f),
            ),
    {
        let ghost all = self.models();
        let ghost root = self.root@;
        let mut out: Vec<FileData> = Vec::new();
        assert(saved_views(out@) =~= keep(all.take(0), on_disk()).map_values(
            |f: FileParts| saved(root, f),
        ));
        for i in 0..self.files.len()
            invariant
                all == self.models(),
                root == self.root@,
                saved_views(out@) == keep(all.take(i as int), on_disk()).map_values(
                    |f: FileParts| saved(root, f),
                ),
        {
            assert(all.take(i + 1).drop_last() =~= all.take(i as int));
            assert(all.take(i + 1).last() == self.files@[i as int]@);
            let file = &self.files[i];
            if !file.is_merged() {
                let ghost before = saved_views(out@);
                let data = FileData {
                    file_id: file.file_id.clone(),
                    path: self.rel(file.path.as_str()),
                    extractor_name: file.extractor_name.clone(),
                    display_name: file.display_name.clone(),
                    label: file.label.clone(),
                    description: file.description.clone(),
                };
                assert(data@ =~= saved(root, file@));
                out.push(data);
                assert(saved_views(out@) =~= before.push(saved(root, file@)));
                assert(keep(all.take(i + 1), on_disk()).map_values(
                    |f: FileParts| saved(root, f),
                ) =~= before.push(saved(root, file@)));
            }
        }
        assert(all.take(all.len() as int) =~= all);
        out
    }

    /// The project as it is saved.
    pub fn to_data(&self) -> (r: ProjectData)
        ensures
            saved_as(*self, r),
    {
        let mut extractors: Vec<Extractor> = Vec::new();
        for i in 0..self.extractors.len()
            invariant
                schemas_of(extractors@) == self.schemas().take(i as int),
        {
            let ghost before = extractors@;
            extractors.push(self.extractors[i].clone());
            assert(schemas_of(extractors@) =~= schemas_of(before).push(
                self.extractors@[i as int]@,
            ));
        }
        assert(self.schemas().take(self.schemas().len() as int) =~= self.schemas());
        ProjectData {
            version: project_version(),
            file_counter: self.file_counter,
            files: self.saved_files(),
            extractors,
            saved_searches: clone_strings(&self.saved_searches),
            filters: self.filters.clone(),
            session: match &self.session {
                Some(session) => Some(session.clone()),
                None => None,
            },
            settings: self.settings.clone(),
        }
    }

    /// Take over a saved project; `places` are the absolute paths of its files.
    pub fn apply(&mut self, data: ProjectData, places: &Vec<String>)
        requires
            old(self).wf(),
            old(self).extractors@.len() > 0,
            places@.len() == data.files@.len(),
        ensures
            final(self).root == old(self).root,
            final(self).file_counter == data.file_counter,
            final(self).saved_searches == data.saved_searches,
            final(self).filters.rules@ == one_time(data.filters.rules@),
            final(self).session == data.session,
            final(self).settings == data.settings,
            final(self).schemas() == opened_schemas(
                old(self).schemas(),
                schemas_of(data.extractors@),
            ),
            final(self).models() == old(self).models() + saved_views(data.files@).map(
                |i: int, f: SavedFile| opened(final(self).schemas(), f, places@[i]@),
            ),
            final(self).wf(),
            final(self).extractors@.len() > 0,
    {
        self.file_counter = data.file_counter;
        self.saved_searches = data.saved_searches;
        let mut filters = data.filters;
        filters.dedupe_time_range();
        self.filters = filters;
        self.session = data.session;
        self.settings = data.settings;
        let extractors = data.extractors;
        let files = data.files;
        let ghost start = self.schemas();
        let ghost given = schemas_of(extractors@);
        let ghost models_before = self.models();
        assert(given.take(0) =~= Seq::<Schema>::empty());
        for i in 0..extractors.len()
            invariant
                self.wf(),
                self.extractors@.len() > 0,
                given == schemas_of(extractors@),
                self.schemas() == opened_schemas(start, given.take(i as int)),
                self.models() == models_before,
                self.root == old(self).root,
                self.file_counter == data.file_counter,
                self.saved_searches == data.saved_searches,
                self.filters.rules@ == one_time(data.filters.rules@),
                self.session == data.session,
                self.settings == data.settings,
        {
            assert(given.take(i + 1).drop_last() =~= given.take(i as int));
            assert(given.take(i + 1).last() == extractors@[i as int]@);
            let mut extractor = extractors[i].clone();
            if same_text(extractor.format.as_str(), BRACKETED_LEGACY_FORMAT) {
                extractor.format = BRACKETED_DEFAULT_FORMAT.to_string();
            }
            assert(extractor@ =~= healed(given[i as int]));
            if let Some(built) = extractor_from_project(extractor) {
                self.put(built);
            }
        }
        assert(given.take(given.len() as int) =~= given);
        let ghost schemas = self.schemas();
        let ghost all = saved_views(files@).map(
            |i: int, f: SavedFile| opened(schemas, f, places@[i]@),
        );
        assert(self.models() =~= models_before + all.take(0));
        for i in 0..files.len()
            invariant
                self.wf(),
                self.extractors@.len() > 0,
                places@.len() == files@.len(),
                schemas == self.schemas(),
                all == saved_views(files@).map(
                    |i: int, f: SavedFile| opened(schemas, f, places@[i]@),
                ),
                self.models() == models_before + all.take(i as int),
                self.root == old(self).root,
                self.file_counter == data.file_counter,
                self.saved_searches == data.saved_searches,
                self.filters.rules@ == one_time(data.filters.rules@),
                self.session == data.session,
                self.settings == data.settings,
        {
            let file = &files[i];
            proof {
                assert(self.extractors@.len() == schemas.len());
                lemma_meant(schemas, file.extractor_name@);
            }
            if let Ok(extractor) = self.get_extractor(file.extractor_name.as_str()) {
                let mut model = LogFileModel::new(
                    file.file_id.as_str(),
                    places[i].as_str(),
                    file.extractor_name.as_str(),
                    file.display_name.as_str(),
                    Some(extractor),
                );
                model.label = file.label.clone();
                model.description = file.description.clone();
                assert(model@ =~= opened(schemas, file@, places@[i as int]@));
                assert(all[i as int] == opened(schemas, file@, places@[i as int]@));
                let ghost added = model@;
                let ghost before = self.models();
                self.files.push(model);
                assert(self.models() =~= before.push(added));
                assert(models_before + all.take(i + 1) =~= (models_before + all.take(
                    i as int,
                )).push(all[i as int]));
                assert(self.extractors@.len() == self.schemas().len());
            }
        }
        assert(all.take(all.len() as int) =~= all);
    }

    /// Open the project at `root`, from what was saved there if anything was. Built-in schemas
    /// that it lacks are added.
    pub fn load(root: &str, data: Option<ProjectData>, places: &Vec<String>) -> (r: Result<
        Project,
        String,
    >)
        requires
            data is Some ==> places@.len() == data->0.files@.len(),
        ensures
            match r {
                Err(e) => builtin_error() == Some(e@),
                Ok(p) => {
                    &&& builtin_error() is None
                    &&& p.root@ == root@
                    &&& p.wf()
                    &&& match data {
                        None => p.schemas() == with_builtins(with_builtins(Seq::empty()))
                            && p.files@.len() == 0 && p.file_counter == 0
                            && p.filters.rules@.len() == 0 && p.saved_searches@.len() == 0
                            && p.session is None && p.settings@ == initial_settings(),
                        Some(d) => opened_as(p, d, texts(places@)),
                    }
                },
            },
    {
        let mut project = match Project::new(root) {
            Ok(project) => project,
            Err(error) => {
                return Err(error);
            },
        };
        assert(project.models() =~= Seq::<FileParts>::empty());
        proof {
            lemma_with_builtins(Seq::empty());
            assert(project.schemas().len() == project.extractors@.len());
        }
        let ghost saved_data = data;
        if let Some(data) = data {
            project.apply(data, places);
            assert(Seq::<FileParts>::empty() + saved_views(saved_data->0.files@).map(
                |i: int, f: SavedFile| opened(project.schemas(), f, places@[i]@),
            ) =~= saved_views(saved_data->0.files@).map(
                |i: int, f: SavedFile| opened(project.schemas(), f, places@[i]@),
            ));
        }
        let ghost taken = project;
        match project.ensure_builtin_extractors() {
            Ok(_) => {
                proof {
                    if saved_data is Some {
                        let schemas = opened_schemas(
                            with_builtins(Seq::empty()),
                            schemas_of(saved_data->0.extractors@),
                        );
                        assert(project.models() =~= saved_views(saved_data->0.files@).map(
                            |i: int, f: SavedFile| opened(schemas, f, texts(places@)[i]),
                        ));
                    }
                }
                Ok(project)
            },
            Err(error) => Err(error),
        }
    }
}

proof fn lemma_with_builtins(schemas: Seq<Schema>)
    ensures
        with_builtins(schemas).len() > 0,
{
    lemma_schema_index(schemas, bracketed_schema().built().name, 0);
}

/// Whether a project holds what was saved of it.
pub open spec fn opened_as(p: Project, data: ProjectData, places: Seq<Seq<char>>) -> bool {
    let schemas = opened_schemas(with_builtins(Seq::empty()), schemas_of(data.extractors@));
    &&& p.schemas() == with_builtins(schemas)
    &&& p.models() == saved_views(data.files@).map(
        |i: int, f: SavedFile| opened(schemas, f, places[i]),
    )
    &&& p.file_counter == data.file_counter
    &&& p.saved_searches == data.saved_searches
    &&& p.filters.rules@ == one_time(data.filters.rules@)
    &&& p.session == data.session
    &&& p.settings == data.settings
}

// ---------------------------------------------------------------------------
// Laws
// ---------------------------------------------------------------------------

/// No merged view outlives a file it was merged from, and the file itself is gone.
pub proof fn removing_a_file_drops_its_merges(files: Seq<FileParts>, file_id: Seq<char>, k: int)
    requires
        0 <= k < keep(files, apart_from(file_id)).len(),
    ensures
        ({
            let f = keep(files, apart_from(file_id))[k];
            f.file_id != file_id && !f.merged_from.contains(file_id)
        }),
{
    lemma_keep(files, apart_from(file_id));
    let f = keep(files, apart_from(file_id))[k];
    assert(apart_from(file_id)(f));
}

proof fn lemma_merge_index(files: Seq<FileParts>, ids: Seq<Seq<char>>, i: int, at: int)
    requires
        0 <= i <= at < files.len(),
        files[at].merged_from == ids,
    ensures
        i <= merge_index(files, ids, i) <= at,
        files[merge_index(files, ids, i)].merged_from == ids,
    decreases at - i,
{
    if files[i].merged_from != ids {
        lemma_merge_index(files, ids, i + 1, at);
    }
}

proof fn lemma_sources_known(files: Seq<FileParts>, ids: Seq<Seq<char>>, i: int, k: int)
    requires
        0 <= i <= k < ids.len(),
        source_error(files, ids, i) is None,
    ensures
        has_model(files, ids[k]),
    decreases k - i,
{
    if i < k {
        lemma_sources_known(files, ids, i + 1, k);
    }
}

/// Merging the same files again finds the merge that is there, and stacks no copy.
pub proof fn a_merge_is_reused(files: Seq<FileParts>, ids: Seq<Seq<char>>, merge_id: Seq<char>)
    requires
        merge_refusal(files, ids) is None,
    ensures
        ({
            let after = files.push(merged(merge_id, files_named(files, ids)));
            merge_index(after, ids, 0) < after.len()
        }),
{
    let whole = merged(merge_id, files_named(files, ids));
    let after = files.push(whole);
    assert forall|k: int| 0 <= k < ids.len() implies #[trigger] whole.merged_from[k] == ids[k] by {
        lemma_sources_known(files, ids, 0, k);
        lemma_model_index(files, ids[k], 0);
    }
    assert(whole.merged_from =~= ids);
    lemma_merge_index(after, ids, 0, files.len() as int);
}

/// A file at a known place is not added again.
pub proof fn a_known_place_is_not_added_again(places: Seq<Seq<char>>, path: Seq<char>)
    ensures
        text_index(places.push(path), path, 0) < places.push(path).len(),
{
    lemma_text_index(places.push(path), path, 0, places.len() as int);
}

proof fn lemma_text_index(list: Seq<Seq<char>>, text: Seq<char>, i: int, at: int)
    requires
        0 <= i <= at < list.len(),
        list[at] == text,
    ensures
        text_index(list, text, i) <= at,
    decreases at - i,
{
    if list[i] != text {
        lemma_text_index(list, text, i + 1, at);
    }
}

proof fn lemma_first_named(schemas: Seq<Schema>)
    requires
        schemas.len() > 0,
    ensures
        schemas.contains(first_named(schemas)),
        forall|k: int|
            0 <= k < schemas.len() ==> !text_less(
                (#[trigger] schemas[k]).name,
                first_named(schemas).name,
            ),
    decreases schemas.len(),
{
    if schemas.len() == 1 {
        assert(schemas[0] == first_named(schemas));
        lemma_text_less_irreflexive(schemas[0].name);
    } else {
        let most = schemas.drop_last();
        lemma_first_named(most);
        let best = first_named(most);
        let last = schemas.last();
        assert(schemas[schemas.len() - 1] == last);
        assert(schemas.contains(best)) by {
            let j = choose|j: int| 0 <= j < most.len() && most[j] == best;
            assert(schemas[j] == best);
        }
        assert forall|k: int| 0 <= k < schemas.len() implies !text_less(
            (#[trigger] schemas[k]).name,
            first_named(schemas).name,
        ) by {
            lemma_text_less_irreflexive(last.name);
            if k < most.len() {
                assert(most[k] == schemas[k]);
                if text_less(last.name, best.name) && text_less(schemas[k].name, last.name) {
                    lemma_text_less_transitive(schemas[k].name, last.name, best.name);
                }
            }
        }
    }
}

/// The fallback does not depend on the order in which the schemas are held.
pub proof fn the_fallback_ignores_order(a: Seq<Schema>, b: Seq<Schema>)
    requires
        names_differ(a),
        names_differ(b),
        forall|s: Schema| a.contains(s) <==> b.contains(s),
    ensures
        fallback(a) == fallback(b),
{
    let name = DEFAULT_EXTRACTOR_NAME@;
    lemma_schema_index(a, name, 0);
    lemma_schema_index(b, name, 0);
    let i = schema_index(a, name, 0);
    let j = schema_index(b, name, 0);
    if i < a.len() {
        assert(b.contains(a[i]));
        let k = choose|k: int| 0 <= k < b.len() && b[k] == a[i];
        assert(b[k].name == name);
        if j < k {
            assert(b[j].name != b[k].name);
        }
        assert(j == k);
    } else {
        if j < b.len() {
            assert(a.contains(b[j]));
            let k = choose|k: int| 0 <= k < a.len() && a[k] == b[j];
            assert(a[k].name == name);
        }
        if a.len() > 0 {
            assert(b.contains(a[0]));
            lemma_first_named(a);
            lemma_first_named(b);
            let x = first_named(a);
            let y = first_named(b);
            assert(b.contains(x) && a.contains(y));
            let kx = choose|k: int| 0 <= k < b.len() && b[k] == x;
            let ky = choose|k: int| 0 <= k < a.len() && a[k] == y;
            assert(!text_less(b[kx].name, y.name));
            assert(!text_less(a[ky].name, x.name));
            lemma_text_less_total(x.name, y.name);
            let by = choose|k: int| 0 <= k < b.len() && b[k] == y;
            if kx < by {
                assert(b[kx].name != b[by].name);
            }
            if by < kx {
                assert(b[by].name != b[kx].name);
            }
        } else if b.len() > 0 {
            assert(a.contains(b[0]));
        }
    }
}

/// An absolute path with one slash before each step.
pub open spec fn clean(path: Seq<char>) -> bool {
    &&& is_absolute(path)
    &&& path.len() == 1 || forall|i: int|
        1 <= i < split(path, '/').len() ==> is_step()(#[trigger] split(path, '/')[i])
}

proof fn lemma_join_append(a: Seq<Seq<char>>, b: Seq<Seq<char>>, sep: Seq<char>)
    requires
        a.len() > 0,
        b.len() > 0,
    ensures
        join(a + b, sep) == join(a, sep) + sep + join(b, sep),
    decreases b.len(),
{
    assert((a + b).drop_last() =~= a + b.drop_last());
    assert((a + b).last() == b.last());
    if b.len() == 1 {
        assert(a + b.drop_last() =~= a);
        assert(join(b, sep) =~= b[0]);
    } else {
        lemma_join_append(a, b.drop_last(), sep);
        assert(join(a + b, sep) =~= join(a, sep) + sep + join(b, sep));
    }
}

proof fn lemma_split_slashes(s: Seq<char>)
    ensures
        split(s, '/').len() >= 1,
        join(split(s, '/'), "/"@) == s,
        forall|i: int| 0 <= i < split(s, '/').len() ==> !(#[trigger] split(s, '/')[i]).contains('/'),
    decreases s.len(),
{
    reveal_strlit("/");
    let p = not_char('/');
    let n = span(s, p) as int;
    lemma_span(s, p);
    let all = split(s, '/');
    if n >= s.len() {
        assert(join(all, "/"@) =~= s);
        assert forall|i: int| 0 <= i < all.len() implies !(#[trigger] all[i]).contains('/') by {
            if s.contains('/') {
                let k = choose|k: int| 0 <= k < s.len() && s[k] == '/';
                assert(p(s[k]));
            }
        }
    } else {
        let head = s.take(n);
        let rest = s.skip(n + 1);
        lemma_split_slashes(rest);
        lemma_join_append(seq![head], split(rest, '/'), "/"@);
        assert(join(seq![head], "/"@) =~= head);
        assert(s[n] == '/');
        assert(s =~= head + "/"@ + rest);
        assert forall|i: int| 0 <= i < all.len() implies !(#[trigger] all[i]).contains('/') by {
            if i == 0 {
                if head.contains('/') {
                    let k = choose|k: int| 0 <= k < head.len() && head[k] == '/';
                    assert(p(s[k]));
                }
            } else {
                assert(all[i] == split(rest, '/')[i - 1]);
            }
        }
    }
}

proof fn lemma_keep_every(all: Seq<Seq<char>>)
    requires
        forall|i: int| 0 <= i < all.len() ==> is_step()(#[trigger] all[i]),
    ensures
        keep(all, is_step()) == all,
        from_first_step(all) == all,
        to_last_step(all) == all,
    decreases all.len(),
{
    if all.len() > 0 {
        lemma_keep_every(all.drop_last());
        assert(all.drop_last().push(all.last()) =~= all);
        assert(is_step()(all[all.len() - 1]));
    } else {
        assert(keep(all, is_step()) =~= all);
    }
}

proof fn lemma_after_steps(all: Seq<Seq<char>>, steps: Seq<Seq<char>>)
    requires
        forall|i: int| 0 <= i < all.len() ==> is_step()(#[trigger] all[i]),
    ensures
        match after_steps(all, steps) {
            Some(rest) => steps.len() <= all.len() && all.take(steps.len() as int) == steps && rest
                == all.skip(steps.len() as int),
            None => true,
        },
    decreases all.len(),
{
    if steps.len() > 0 && all.len() > 0 && all[0] == steps[0] {
        assert forall|i: int| 0 <= i < all.skip(1).len() implies is_step()(
            #[trigger] all.skip(1)[i],
        ) by {
            assert(all.skip(1)[i] == all[i + 1]);
        }
        lemma_after_steps(all.skip(1), steps.skip(1));
        if after_steps(all, steps) is Some {
            let n = steps.len() as int;
            assert(all.skip(1).skip(n - 1) =~= all.skip(n));
            assert(all.skip(1).take(n - 1) == steps.skip(1));
            assert forall|k: int| 0 <= k < n implies #[trigger] all.take(n)[k] == steps[k] by {
                if k > 0 {
                    assert(all.skip(1).take(n - 1)[k - 1] == steps.skip(1)[k - 1]);
                }
            }
            assert(all.take(n) =~= steps);
        }
    } else if steps.len() == 0 {
        assert(all.take(0) =~= steps);
        assert(all.skip(0) =~= all);
    }
}

/// The pieces of a clean path: nothing, then its steps.
proof fn lemma_clean(path: Seq<char>)
    requires
        clean(path),
    ensures
        ({
            let steps = keep(split(path, '/'), is_step());
            &&& path.len() == 1 ==> steps.len() == 0 && path == "/"@
            &&& path.len() > 1 ==> {
                &&& steps.len() > 0
                &&& split(path, '/') == seq![Seq::<char>::empty()] + steps
                &&& path == "/"@ + join(steps, "/"@)
                &&& forall|i: int| 0 <= i < steps.len() ==> is_step()(#[trigger] steps[i])
                &&& forall|i: int|
                    0 <= i < steps.len() ==> !(#[trigger] steps[i]).contains('/')
            }
        }),
{
    reveal_strlit("/");
    let p = not_char('/');
    let all = split(path, '/');
    lemma_split_slashes(path);
    lemma_span_is(path, p, 0);
    let empty = Seq::<char>::empty();
    assert(path.take(0) =~= empty);
    let rest = path.skip(1);
    assert(all == seq![empty] + split(rest, '/'));
    lemma_split_slashes(rest);
    lemma_keep_split(all, is_step(), 1);
    assert(all.take(1) =~= seq![empty]);
    assert(seq![empty].drop_last() =~= Seq::<Seq<char>>::empty());
    assert(keep(seq![empty].drop_last(), is_step()) =~= Seq::<Seq<char>>::empty());
    assert(keep(all.take(1), is_step()) =~= Seq::<Seq<char>>::empty());
    assert(all.skip(1) =~= split(rest, '/'));
    let tail = split(rest, '/');
    assert(keep(all, is_step()) =~= keep(tail, is_step()));
    if path.len() == 1 {
        assert(rest =~= empty);
        assert(tail =~= seq![empty]);
        assert(path =~= "/"@);
    } else {
        assert forall|i: int| 0 <= i < tail.len() implies is_step()(#[trigger] tail[i]) by {
            assert(all[i + 1] == tail[i]);
        }
        lemma_keep_every(tail);
        assert(path =~= "/"@ + rest);
        assert forall|i: int| 0 <= i < tail.len() implies !(#[trigger] tail[i]).contains('/') by {}
    }
}

proof fn lemma_first_char(steps: Seq<Seq<char>>)
    requires
        steps.len() > 0,
        steps[0].len() > 0,
    ensures
        join(steps, "/"@).len() > 0,
        join(steps, "/"@)[0] == steps[0][0],
    decreases steps.len(),
{
    if steps.len() > 1 {
        lemma_first_char(steps.drop_last());
    }
}

/// A path from the root has nothing before its first slash.
proof fn lemma_rooted(path: Seq<char>)
    requires
        is_absolute(path),
    ensures
        split(path, '/')[0].len() == 0,
{
    lemma_span_is(path, not_char('/'), 0);
    assert(path.take(0).len() == 0);
}

/// A path saved as seen from the project's folder leads back to the file, wherever the file
/// lies.
pub proof fn saved_paths_lead_back(root: Seq<char>, path: Seq<char>)
    requires
        clean(root),
        clean(path),
        root != path,
    ensures
        joined(root, relative(root, path)) == path,
{
    reveal_strlit("/");
    reveal_strlit(".");
    lemma_clean(root);
    lemma_clean(path);
    lemma_rooted(root);
    lemma_rooted(path);
    let empty = Seq::<char>::empty();
    let above = keep(split(root, '/'), is_step());
    let steps = keep(split(path, '/'), is_step());
    let all = split(path, '/');
    if path.len() == 1 {
        // Only the root of the file system is above every step.
        lemma_split_slashes(path);
        lemma_span_is(path, not_char('/'), 0);
        let rest = path.skip(1);
        assert(rest =~= empty);
        assert(path.take(0) =~= empty);
        assert(split(rest, '/') =~= seq![empty]);
        assert(all =~= seq![empty, empty]);
        assert(all.skip(1) =~= seq![empty]);
        assert(all.skip(1).skip(1) =~= Seq::<Seq<char>>::empty());
        assert(after_steps(all.skip(1).skip(1), above) is None);
        assert(after_steps(all.skip(1), above) is None);
        assert(after_steps(all, above) is None);
    } else if above.len() == 0 {
        assert(all.skip(1) =~= steps);
        assert(!is_step()(all[0]));
        lemma_keep_every(steps);
        assert(after_steps(all, above) == Some(all));
        assert(from_first_step(all) == from_first_step(steps));
        lemma_first_char(steps);
        let t = join(steps, "/"@);
        assert(steps[0].contains(steps[0][0]));
        assert(t[0] != '/');
        assert(joined(root, t) =~= path);
    } else {
        assert(all.skip(1) =~= steps);
        assert(!is_step()(all[0]));
        assert(after_steps(all, above) == after_steps(steps, above));
        lemma_after_steps(steps, above);
        if let Some(rest) = after_steps(steps, above) {
            let n = above.len() as int;
            assert(steps =~= above + rest);
            if rest.len() == 0 {
                assert(steps =~= above);
                assert(root == path);
            }
            assert forall|i: int| 0 <= i < rest.len() implies is_step()(#[trigger] rest[i]) by {
                assert(rest[i] == steps[n + i]);
            }
            lemma_keep_every(rest);
            lemma_join_append(above, rest, "/"@);
            lemma_first_char(rest);
            let t = join(rest, "/"@);
            assert(rest[0] == steps[n]);
            assert(rest[0].contains(rest[0][0]));
            assert(t[0] != '/');
            let last = above.last();
            assert(last == steps[n - 1]);
            assert(last.contains(last.last()));
            assert(join(above, "/"@).last() == last.last());
            assert(root.last() == last.last());
            assert(joined(root, t) =~= root + "/"@ + t);
            assert(path =~= root + "/"@ + t);
        }
    }
}

/// A saved file opens as it was: the same id, names, label and note, at the same place, to be
/// read again under the schema that its name stands for.
pub proof fn a_saved_file_opens_as_it_was(root: Seq<char>, file: FileParts, schemas: Seq<Schema>)
    requires
        clean(root),
        clean(file.path),
        root != file.path,
        file.merged_from.len() == 0,
        file.display_name.len() > 0,
    ensures
        ({
            let data = saved(root, file);
            let place = joined(root, data.path);
            opened(schemas, data, place) == (FileParts {
                extractor: Some(meant(schemas, file.extractor_name)),
                entries: Seq::empty(),
                loaded: false,
                error: Seq::empty(),
                sources: Seq::empty(),
                merged_from: Seq::empty(),
                ..file
            })
        }),
{
    saved_paths_lead_back(root, file.path);
}

/// Schemas that were saved come back when the project is opened, each as it was, in whatever
/// company: those of a project are built, differ in their names, and have no outdated format.
pub proof fn saved_schemas_come_back(start: Seq<Schema>, saved: Seq<Schema>, i: int)
    requires
        names_differ(saved),
        0 <= i < saved.len(),
        forall|k: int|
            0 <= k < saved.len() ==> (#[trigger] saved[k]).build_error() is None && saved[k].built()
                == saved[k] && saved[k].format != BRACKETED_LEGACY_FORMAT@,
    ensures
        has_schema(opened_schemas(start, saved), saved[i].name),
        opened_schemas(start, saved)[schema_index(
            opened_schemas(start, saved),
            saved[i].name,
            0,
        )] == saved[i],
        meant(opened_schemas(start, saved), saved[i].name) == saved[i],
    decreases saved.len(),
{
    let before = opened_schemas(start, saved.drop_last());
    let last = saved.last();
    let after = opened_schemas(start, saved);
    assert(saved[saved.len() - 1] == last);
    assert(after == with_schema(before, last));
    lemma_schema_index(before, last.name, 0);
    lemma_schema_index(before, saved[i].name, 0);
    lemma_schema_index(after, saved[i].name, 0);
    if i < saved.len() - 1 {
        let rest = saved.drop_last();
        assert(rest[i] == saved[i]);
        assert forall|k: int| 0 <= k < rest.len() implies (#[trigger] rest[k]).build_error() is None
            && rest[k].built() == rest[k] && rest[k].format != BRACKETED_LEGACY_FORMAT@ by {
            assert(rest[k] == saved[k]);
        }
        saved_schemas_come_back(start, rest, i);
        assert(saved[i].name != last.name);
        let at = schema_index(before, saved[i].name, 0);
        assert(after[at] == saved[i]);
        lemma_index_is(after, saved[i].name, 0, at);
    } else {
        let at = if has_schema(before, last.name) {
            schema_index(before, last.name, 0)
        } else {
            before.len() as int
        };
        assert(after[at] == last);
        lemma_index_is(after, last.name, 0, at);
    }
}

/// Whether a project's files lie at plain places apart from its folder, are shown under a name,
/// and its schemas are built and of no outdated format.
pub open spec fn is_settled(p: Project) -> bool {
    &&& clean(p.root@)
    &&& forall|i: int|
        0 <= i < p.models().len() ==> clean((#[trigger] p.models()[i]).path) && p.models()[i].path
            != p.root@ && p.models()[i].display_name.len() > 0
    &&& forall|k: int|
        0 <= k < p.schemas().len() ==> (#[trigger] p.schemas()[k]).build_error() is None
            && p.schemas()[k].built() == p.schemas()[k] && p.schemas()[k].format
            != BRACKETED_LEGACY_FORMAT@
}

/// A project that was saved opens as it was: with its schemas, and with its files unread but
/// otherwise the same, each under the schema that its name stands for. Merged views are left
/// out, and of several time ranges the last is kept.
pub proof fn a_saved_project_opens_as_it_was(
    p: Project,
    data: ProjectData,
    places: Seq<Seq<char>>,
    later: Project,
)
    requires
        p.wf(),
        is_settled(p),
        saved_as(p, data),
        places == saved_views(data.files@).map_values(|f: SavedFile| joined(p.root@, f.path)),
        opened_as(later, data, places),
    ensures
        forall|k: int|
            0 <= k < p.schemas().len() ==> has_schema(
                later.schemas(),
                (#[trigger] p.schemas()[k]).name,
            ) && meant(later.schemas(), p.schemas()[k].name) == p.schemas()[k],
        later.models().len() == keep(p.models(), on_disk()).len(),
        forall|i: int|
            0 <= i < later.models().len() ==> {
                let file = keep(p.models(), on_disk())[i];
                let there = #[trigger] later.models()[i];
                &&& there == (FileParts {
                    extractor: there.extractor,
                    entries: Seq::empty(),
                    loaded: false,
                    error: Seq::empty(),
                    sources: Seq::empty(),
                    ..file
                })
                &&& there.extractor is Some
                &&& has_schema(p.schemas(), file.extractor_name) ==> there.extractor == Some(
                    meant(p.schemas(), file.extractor_name),
                )
            },
        later.file_counter == p.file_counter,
        later.saved_searches@ == p.saved_searches@,
        later.filters.rules@ == one_time(p.filters.rules@),
        session_view(later.session) == session_view(p.session),
        later.settings@ == p.settings@,
{
    let start = with_builtins(Seq::empty());
    let own = p.schemas();
    let schemas = opened_schemas(start, own);
    assert forall|k: int| 0 <= k < own.len() implies has_schema(
        later.schemas(),
        (#[trigger] own[k]).name,
    ) && meant(later.schemas(), own[k].name) == own[k] by {
        saved_schemas_come_back(start, own, k);
        let at = schema_index(schemas, own[k].name, 0);
        lemma_schema_index(schemas, own[k].name, 0);
        builtins_never_replace(schemas, at);
        assert forall|j: int| 0 <= j < at implies (#[trigger] later.schemas()[j]).name
            != own[k].name by {
            builtins_never_replace(schemas, j);
        }
        lemma_index_is(later.schemas(), own[k].name, 0, at);
    }
    let files = keep(p.models(), on_disk());
    lemma_keep(p.models(), on_disk());
    assert forall|i: int| 0 <= i < files.len() implies ({
        let there = #[trigger] later.models()[i];
        &&& there == (FileParts {
            extractor: there.extractor,
            entries: Seq::empty(),
            loaded: false,
            error: Seq::empty(),
            sources: Seq::empty(),
            ..files[i]
        })
        &&& there.extractor is Some
        &&& has_schema(own, files[i].extractor_name) ==> there.extractor == Some(
            meant(own, files[i].extractor_name),
        )
    }) by {
        let file = files[i];
        assert(on_disk()(file));
        assert(p.models().contains(file));
        let at = choose|at: int| 0 <= at < p.models().len() && p.models()[at] == file;
        assert(clean(p.models()[at].path));
        a_saved_file_opens_as_it_was(p.root@, file, schemas);
        assert(saved_views(data.files@)[i] == saved(p.root@, file));
        assert(later.models()[i] == opened(schemas, saved(p.root@, file), places[i]));
        assert(later.models()[i].merged_from =~= file.merged_from);
        if has_schema(own, file.extractor_name) {
            lemma_schema_index(own, file.extractor_name, 0);
            let k = schema_index(own, file.extractor_name, 0);
            saved_schemas_come_back(start, own, k);
        }
    }
}

/// A built schema is its own definition: building it again changes nothing.
pub proof fn building_twice_is_building_once(schema: Schema)
    ensures
        schema.built().built() == schema.built(),
        schema.built().build_error() == schema.build_error(),
{
    assert(schema.built().verdicts() == schema.verdicts());
}

/// The built-in schemas are there after opening a project, and a schema of a built-in name that
/// the project defines is left alone.
pub proof fn builtins_never_replace(schemas: Seq<Schema>, i: int)
    requires
        0 <= i < schemas.len(),
    ensures
        with_builtins(schemas)[i] == schemas[i],
        has_schema(with_builtins(schemas), bracketed_schema().built().name),
        has_schema(with_builtins(schemas), generic_schema().name),
{
    let first = bracketed_schema().built();
    let second = generic_schema();
    let one = with_missing(schemas, first);
    let both = with_builtins(schemas);
    lemma_missing(schemas, first);
    lemma_missing(one, second);
    if !has_schema(one, second.name) {
        lemma_pushed_schema(one, second, first.name, 0);
    }
}

proof fn lemma_missing(schemas: Seq<Schema>, schema: Schema)
    ensures
        has_schema(with_missing(schemas, schema), schema.name),
{
    if !has_schema(schemas, schema.name) {
        lemma_pushed_schema(schemas, schema, schema.name, 0);
    }
}

proof fn lemma_pushed_schema(schemas: Seq<Schema>, schema: Schema, name: Seq<char>, i: int)
    requires
        0 <= i <= schemas.len(),
    ensures
        schema_index(schemas, name, i) < schemas.len() || schema.name == name ==> schema_index(
            schemas.push(schema),
            name,
            i,
        ) <= schemas.len(),
    decreases schemas.len() - i,
{
    if i < schemas.len() && schemas[i].name != name {
        lemma_pushed_schema(schemas, schema, name, i + 1);
    }
}

/// The schema to fall back on is the built-in one wherever there is one, and else the one whose
/// name no other comes before; only a project without schemas has none.
pub proof fn the_fallback_is_the_built_in_or_comes_first(schemas: Seq<Schema>)
    ensures
        fallback(schemas) is None <==> schemas.len() == 0,
        fallback(schemas) is Some ==> schemas.contains(fallback(schemas)->0),
        (exists|i: int| 0 <= i < schemas.len() && (#[trigger] schemas[i]).name == "Bracketed default"@)
            ==> fallback(schemas)->0.name == "Bracketed default"@,
        (forall|i: int| 0 <= i < schemas.len() ==> (#[trigger] schemas[i]).name != "Bracketed default"@)
            ==> forall|i: int|
            0 <= i < schemas.len() ==> !text_less(
                (#[trigger] schemas[i]).name,
                fallback(schemas)->0.name,
            ),
{
    lemma_schema_index(schemas, DEFAULT_EXTRACTOR_NAME@, 0);
    if schemas.len() > 0 {
        lemma_first_named(schemas);
    }
}

/// A schema that is added is found under its name, takes the place of the one that had it, and
/// leaves every other where it was.
pub proof fn an_added_schema_takes_its_place(schemas: Seq<Schema>, schema: Schema, k: int)
    requires
        names_differ(schemas),
        0 <= k < schemas.len(),
    ensures
        with_schema(schemas, schema).contains(schema),
        with_schema(schemas, schema)[k] == if schemas[k].name == schema.name {
            schema
        } else {
            schemas[k]
        },
        with_schema(schemas, schema).len() == schemas.len() + if exists|i: int|
            0 <= i < schemas.len() && (#[trigger] schemas[i]).name == schema.name {
            0int
        } else {
            1int
        },
        with_missing(schemas, schema)[k] == schemas[k],
{
    lemma_schema_index(schemas, schema.name, 0);
    let at = schema_index(schemas, schema.name, 0);
    let out = with_schema(schemas, schema);
    if at < schemas.len() {
        assert(out[at] == schema);
        if k != at && schemas[k].name == schema.name {
            if k < at {
                assert(schemas[k].name != schemas[at].name);
            } else {
                assert(schemas[at].name != schemas[k].name);
            }
        }
    } else {
        assert(out[schemas.len() as int] == schema);
    }
}

/// Whether a file can be a source of a merge: it is one of its own, and read.
pub open spec fn can_be_merged(files: Seq<FileParts>, id: Seq<char>) -> bool {
    exists|k: int|
        0 <= k < files.len() && (#[trigger] files[k]).file_id == id && files[k].merged_from.len()
            == 0 && files[k].loaded
}

proof fn lemma_sources(files: Seq<FileParts>, ids: Seq<Seq<char>>, i: int)
    requires
        0 <= i <= ids.len(),
        forall|j: int, k: int|
            0 <= j < k < files.len() ==> (#[trigger] files[j]).file_id != (
            #[trigger] files[k]).file_id,
    ensures
        source_error(files, ids, i) is None <==> forall|k: int|
            i <= k < ids.len() ==> can_be_merged(files, #[trigger] ids[k]),
    decreases ids.len() - i,
{
    if i < ids.len() {
        lemma_sources(files, ids, i + 1);
        lemma_model_index(files, ids[i], 0);
        let at = model_index(files, ids[i], 0);
        if at < files.len() {
            if can_be_merged(files, ids[i]) {
                let k = choose|k: int|
                    0 <= k < files.len() && (#[trigger] files[k]).file_id == ids[i]
                        && files[k].merged_from.len() == 0 && files[k].loaded;
                if k < at {
                    assert(files[k].file_id != files[at].file_id);
                }
                if at < k {
                    assert(files[at].file_id != files[k].file_id);
                }
            }
        } else if can_be_merged(files, ids[i]) {
            let k = choose|k: int|
                0 <= k < files.len() && (#[trigger] files[k]).file_id == ids[i]
                    && files[k].merged_from.len() == 0 && files[k].loaded;
            assert(files[k].file_id != ids[i]);
        }
    }
}

/// Files are merged exactly where there are two or more of them, each is in the project and read,
/// and none is itself a merge.
pub proof fn read_files_can_be_merged(files: Seq<FileParts>, ids: Seq<Seq<char>>)
    requires
        forall|j: int, k: int|
            0 <= j < k < files.len() ==> (#[trigger] files[j]).file_id != (
            #[trigger] files[k]).file_id,
    ensures
        merge_refusal(files, ids) is None <==> ids.len() >= 2 && forall|k: int|
            0 <= k < ids.len() ==> can_be_merged(files, #[trigger] ids[k]),
{
    lemma_sources(files, ids, 0);
}

/// Looking at a file's first lines again changes nothing but its schema, and that only where the
/// file is on its own, not read yet, and its own schema explains nothing; what it then gets is
/// what is detected.
pub proof fn a_file_is_pointed_elsewhere_only_for_a_reason(
    schemas: Seq<Schema>,
    file: FileParts,
    lines: Option<Seq<Seq<char>>>,
)
    ensures
        ({
            let after = redetected(schemas, file, lines);
            &&& after == (FileParts {
                extractor_name: after.extractor_name,
                extractor: after.extractor,
                ..file
            })
            &&& after != file ==> file.merged_from.len() == 0 && !file.loaded && lines is Some
                && detected(schemas, lines->0) is Some && after.extractor == detected(
                schemas,
                lines->0,
            ) && after.extractor_name == detected(schemas, lines->0)->0.name
            &&& after != file && file.extractor is Some ==> file.extractor->0.coverage(lines->0).0
                == 0
            &&& file.merged_from.len() == 0 && !file.loaded && lines is Some && !all_blank(lines->0)
                && file.extractor is None && detected(schemas, lines->0) is Some && detected(
                schemas,
                lines->0,
            )->0.name != file.extractor_name ==> after.extractor == detected(schemas, lines->0)
        }),
{
}

/// A file is read once: when it was read, or failed to be, reading it again leaves it alone.
pub proof fn a_file_is_read_once(
    file: FileParts,
    first: Result<Seq<Seq<char>>, Seq<char>>,
    second: Result<Seq<Seq<char>>, Seq<char>>,
)
    ensures
        after_reading(after_reading(file, first), second) == after_reading(file, first),
        unread(file) && first is Ok ==> after_reading(file, first).loaded && after_reading(
            file,
            first,
        ).error == file.error,
        unread(file) && first is Err ==> !after_reading(file, first).loaded && after_reading(
            file,
            first,
        ).entries == file.entries,
{
    reveal_strlit("read error: ");
}

} // verus!
