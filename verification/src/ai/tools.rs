//! The tools the assistant is offered: names, descriptions, and argument schemas.

use crate::ai::message::{tool_views, Tool, ToolSpec};
use crate::json::{object, Doc, Json};
use vstd::prelude::*;

verus! {

pub const LIST_SOURCES: &'static str = "list_sources";

pub const LIST_FILTERS: &'static str = "list_filters";

pub const SAMPLE_LINES: &'static str = "sample_lines";

pub const COUNT_MATCHES: &'static str = "count_matches";

pub const LEVEL_BREAKDOWN: &'static str = "level_breakdown";

pub const ADD_FILTER: &'static str = "add_filter";

pub const SET_TIME_RANGE: &'static str = "set_time_range";

pub const SEARCH: &'static str = "search";

pub const ADD_SOURCE: &'static str = "add_source";

// ---------------------------------------------------------------------------
// Schemas of arguments
// ---------------------------------------------------------------------------

/// A property of a kind, described in words.
pub open spec fn property(kind: Seq<char>, description: Seq<char>) -> Doc {
    object().with("type"@, Doc::Text(kind)).with("description"@, Doc::Text(description))
}

/// A text that is one of a few.
pub open spec fn choice(options: Seq<Seq<char>>) -> Doc {
    object().with("type"@, Doc::Text("string"@)).with("enum"@, words(options))
}

/// A list of texts.
pub open spec fn words(list: Seq<Seq<char>>) -> Doc {
    Doc::List(list.map_values(|t: Seq<char>| Doc::Text(t)))
}

/// The schema of arguments with these properties.
pub open spec fn arguments(properties: Doc) -> Doc {
    object().with("type"@, Doc::Text("object"@)).with("properties"@, properties)
}

fn property_json(kind: &str, description: &str) -> (r: Json)
    ensures
        r@ == property(kind@, description@),
{
    Json::empty().with("type", Json::text(kind)).with("description", Json::text(description))
}

fn choice_json(options: &[&str]) -> (r: Json)
    ensures
        r@ == choice(options@.map_values(|t: &str| t@)),
{
    let list = Json::texts(options);
    assert(options@.map_values(|t: &str| Doc::Text(t@)) =~= options@.map_values(
        |t: &str| t@,
    ).map_values(|t: Seq<char>| Doc::Text(t)));
    Json::empty().with("type", Json::text("string")).with("enum", list)
}

fn required_json(names: &[&str]) -> (r: Json)
    ensures
        r@ == words(names@.map_values(|t: &str| t@)),
{
    assert(names@.map_values(|t: &str| Doc::Text(t@)) =~= names@.map_values(
        |t: &str| t@,
    ).map_values(|t: Seq<char>| Doc::Text(t)));
    Json::texts(names)
}

fn arguments_json(properties: Json) -> (r: Json)
    ensures
        r@ == arguments(properties@),
{
    Json::empty().with("type", Json::text("object")).with("properties", properties)
}

fn tool_spec(name: &str, description: &str, parameters: Json) -> (r: ToolSpec)
    ensures
        r@ == (Tool { name: name@, description: description@, parameters: parameters@ }),
{
    ToolSpec { name: name.to_string(), description: description.to_string(), parameters }
}

// ---------------------------------------------------------------------------
// The tools
// ---------------------------------------------------------------------------

pub open spec fn list_sources_tool() -> Tool {
    Tool {
        name: LIST_SOURCES@,
        description: "List the log sources in the project: display name, assigned log schema, entry count, and load state. Call this first to see what data is available."@,
        parameters: arguments(object()),
    }
}

fn list_sources_spec() -> (r: ToolSpec)
    ensures
        r@ == list_sources_tool(),
{
    let parameters = arguments_json(Json::empty());
    tool_spec(
        LIST_SOURCES,
        "List the log sources in the project: display name, assigned log schema, entry count, and load state. Call this first to see what data is available.",
        parameters,
    )
}

pub open spec fn list_filters_tool() -> Tool {
    Tool {
        name: LIST_FILTERS@,
        description: "List the filters currently applied to the project (text filters and the one time-range filter), so you know what is already narrowing the view."@,
        parameters: arguments(object()),
    }
}

fn list_filters_spec() -> (r: ToolSpec)
    ensures
        r@ == list_filters_tool(),
{
    let parameters = arguments_json(Json::empty());
    tool_spec(
        LIST_FILTERS,
        "List the filters currently applied to the project (text filters and the one time-range filter), so you know what is already narrowing the view.",
        parameters,
    )
}

pub open spec fn sample_lines_tool() -> Tool {
    Tool {
        name: SAMPLE_LINES@,
        description: "Return the first N raw lines of the focused pane's current view, so you can see the actual log text before deciding what to do."@,
        parameters: arguments(
        object().with(
            "count"@,
            property("integer"@, "How many lines to return (1-50)."@),
        ),
    ),
    }
}

fn sample_lines_spec() -> (r: ToolSpec)
    ensures
        r@ == sample_lines_tool(),
{
    let parameters = arguments_json(Json::empty().with(
        "count",
        property_json("integer", "How many lines to return (1-50)."),
    ));
    tool_spec(
        SAMPLE_LINES,
        "Return the first N raw lines of the focused pane's current view, so you can see the actual log text before deciding what to do.",
        parameters,
    )
}

pub open spec fn count_matches_tool() -> Tool {
    Tool {
        name: COUNT_MATCHES@,
        description: "Count how many entries in the focused log match a query, using the same query language as the search box (bare text, \"quoted phrase\", /regex/, field=value, after:<ts>). Use this to measure how much noise a pattern covers before hiding it."@,
        parameters: arguments(
        object().with(
            "query"@,
            property("string"@, "The query to count."@),
        ),
    ).with("required"@, words(seq!["query"@])),
    }
}

fn count_matches_spec() -> (r: ToolSpec)
    ensures
        r@ == count_matches_tool(),
{
    let required: [&str; 1] = ["query"];
    assert(required@.map_values(|t: &str| t@) =~= seq!["query"@]);
    let parameters = arguments_json(Json::empty().with(
        "query",
        property_json("string", "The query to count."),
    )).with("required", required_json(&required));
    tool_spec(
        COUNT_MATCHES,
        "Count how many entries in the focused log match a query, using the same query language as the search box (bare text, \"quoted phrase\", /regex/, field=value, after:<ts>). Use this to measure how much noise a pattern covers before hiding it.",
        parameters,
    )
}

pub open spec fn level_breakdown_tool() -> Tool {
    Tool {
        name: LEVEL_BREAKDOWN@,
        description: "Return a histogram of the log-level field over the focused log (Error, Warn, Info, ...), so you can see the severity mix at a glance."@,
        parameters: arguments(object()),
    }
}

fn level_breakdown_spec() -> (r: ToolSpec)
    ensures
        r@ == level_breakdown_tool(),
{
    let parameters = arguments_json(Json::empty());
    tool_spec(
        LEVEL_BREAKDOWN,
        "Return a histogram of the log-level field over the focused log (Error, Warn, Info, ...), so you can see the severity mix at a glance.",
        parameters,
    )
}

pub open spec fn add_filter_tool() -> Tool {
    Tool {
        name: ADD_FILTER@,
        description: "Add a project-wide filter. `action` is \"exclude\" to hide matching lines or \"include\" to keep only matching lines. `op` is one of equals, contains, regex. The view updates immediately; the tool result reports the before/after row count."@,
        parameters: arguments(
        object().with(
            "field"@,
            property("string"@, "Field to match, e.g. message, level, host, or 'raw' for the whole line."@),
        ).with(
            "op"@,
            choice(seq!["equals"@, "contains"@, "regex"@]),
        ).with(
            "value"@,
            property("string"@, "The value or pattern."@),
        ).with(
            "action"@,
            choice(seq!["exclude"@, "include"@]),
        ),
    ).with("required"@, words(seq!["field"@, "op"@, "value"@, "action"@])),
    }
}

fn add_filter_spec() -> (r: ToolSpec)
    ensures
        r@ == add_filter_tool(),
{
    let op_options: [&str; 3] = ["equals", "contains", "regex"];
    assert(op_options@.map_values(|t: &str| t@) =~= seq!["equals"@, "contains"@, "regex"@]);
    let action_options: [&str; 2] = ["exclude", "include"];
    assert(action_options@.map_values(|t: &str| t@) =~= seq!["exclude"@, "include"@]);
    let required: [&str; 4] = ["field", "op", "value", "action"];
    assert(required@.map_values(|t: &str| t@) =~= seq!["field"@, "op"@, "value"@, "action"@]);
    let parameters = arguments_json(Json::empty().with(
        "field",
        property_json("string", "Field to match, e.g. message, level, host, or 'raw' for the whole line."),
    ).with(
        "op",
        choice_json(&op_options),
    ).with(
        "value",
        property_json("string", "The value or pattern."),
    ).with(
        "action",
        choice_json(&action_options),
    )).with("required", required_json(&required));
    tool_spec(
        ADD_FILTER,
        "Add a project-wide filter. `action` is \"exclude\" to hide matching lines or \"include\" to keep only matching lines. `op` is one of equals, contains, regex. The view updates immediately; the tool result reports the before/after row count.",
        parameters,
    )
}

pub open spec fn set_time_range_tool() -> Tool {
    Tool {
        name: SET_TIME_RANGE@,
        description: "Restrict the view to a time window. Timestamps are 'YYYY-MM-DD HH:MM:SS'. Either end may be omitted for an open range. Replaces any existing time filter."@,
        parameters: arguments(
        object().with(
            "start"@,
            property("string"@, "Inclusive start, or empty for open."@),
        ).with(
            "end"@,
            property("string"@, "Inclusive end, or empty for open."@),
        ),
    ),
    }
}

fn set_time_range_spec() -> (r: ToolSpec)
    ensures
        r@ == set_time_range_tool(),
{
    let parameters = arguments_json(Json::empty().with(
        "start",
        property_json("string", "Inclusive start, or empty for open."),
    ).with(
        "end",
        property_json("string", "Inclusive end, or empty for open."),
    ));
    tool_spec(
        SET_TIME_RANGE,
        "Restrict the view to a time window. Timestamps are 'YYYY-MM-DD HH:MM:SS'. Either end may be omitted for an open range. Replaces any existing time filter.",
        parameters,
    )
}

pub open spec fn search_tool() -> Tool {
    Tool {
        name: SEARCH@,
        description: "Run a search over the focused log and jump the view to it. Uses the search query language (bare text, \"phrase\", /regex/, field=value, after:/before:)."@,
        parameters: arguments(
        object().with(
            "query"@,
            property("string"@, "The search query."@),
        ),
    ).with("required"@, words(seq!["query"@])),
    }
}

fn search_spec() -> (r: ToolSpec)
    ensures
        r@ == search_tool(),
{
    let required: [&str; 1] = ["query"];
    assert(required@.map_values(|t: &str| t@) =~= seq!["query"@]);
    let parameters = arguments_json(Json::empty().with(
        "query",
        property_json("string", "The search query."),
    )).with("required", required_json(&required));
    tool_spec(
        SEARCH,
        "Run a search over the focused log and jump the view to it. Uses the search query language (bare text, \"phrase\", /regex/, field=value, after:/before:).",
        parameters,
    )
}

pub open spec fn add_source_tool() -> Tool {
    Tool {
        name: ADD_SOURCE@,
        description: "Add a log file to the project by path. Use only a path the user has mentioned."@,
        parameters: arguments(
        object().with(
            "path"@,
            property("string"@, "Filesystem path to the log file."@),
        ),
    ).with("required"@, words(seq!["path"@])),
    }
}

fn add_source_spec() -> (r: ToolSpec)
    ensures
        r@ == add_source_tool(),
{
    let required: [&str; 1] = ["path"];
    assert(required@.map_values(|t: &str| t@) =~= seq!["path"@]);
    let parameters = arguments_json(Json::empty().with(
        "path",
        property_json("string", "Filesystem path to the log file."),
    )).with("required", required_json(&required));
    tool_spec(
        ADD_SOURCE,
        "Add a log file to the project by path. Use only a path the user has mentioned.",
        parameters,
    )
}

/// Every tool the model may call, read tools first so it inspects before it acts.
pub open spec fn all_tools() -> Seq<Tool> {
    seq![
        list_sources_tool(),
        list_filters_tool(),
        sample_lines_tool(),
        count_matches_tool(),
        level_breakdown_tool(),
        add_filter_tool(),
        set_time_range_tool(),
        search_tool(),
        add_source_tool(),
    ]
}

/// Every tool the model may call.
pub fn specs() -> (r: Vec<ToolSpec>)
    ensures
        tool_views(r@) == all_tools(),
{
    let mut out: Vec<ToolSpec> = Vec::new();
    out.push(list_sources_spec());
    out.push(list_filters_spec());
    out.push(sample_lines_spec());
    out.push(count_matches_spec());
    out.push(level_breakdown_spec());
    out.push(add_filter_spec());
    out.push(set_time_range_spec());
    out.push(search_spec());
    out.push(add_source_spec());
    assert(tool_views(out@) =~= all_tools());
    out
}

// ---------------------------------------------------------------------------
// Laws
// ---------------------------------------------------------------------------

/// No two tools share a name, so a call names one of them.
pub proof fn tool_names_are_distinct(i: int, j: int)
    requires
        0 <= i < all_tools().len(),
        0 <= j < all_tools().len(),
        all_tools()[i].name == all_tools()[j].name,
    ensures
        i == j,
{
    reveal_strlit("list_sources");
    reveal_strlit("list_filters");
    reveal_strlit("sample_lines");
    reveal_strlit("count_matches");
    reveal_strlit("level_breakdown");
    reveal_strlit("add_filter");
    reveal_strlit("set_time_range");
    reveal_strlit("search");
    reveal_strlit("add_source");
    assert("list_sources"@.len() == 12);
    assert("list_filters"@.len() == 12);
    assert("sample_lines"@.len() == 12);
    assert("count_matches"@.len() == 13);
    assert("level_breakdown"@.len() == 15);
    assert("add_filter"@.len() == 10);
    assert("set_time_range"@.len() == 14);
    assert("search"@.len() == 6);
    assert("add_source"@.len() == 10);
    assert("list_sources"@[5] == 's' && "list_filters"@[5] == 'f');
    assert("list_sources"@[0] == 'l' && "sample_lines"@[0] == 's');
    assert("list_filters"@[0] == 'l' && "sample_lines"@[0] == 's');
    assert("add_filter"@[4] == 'f' && "add_source"@[4] == 's');
}

} // verus!
