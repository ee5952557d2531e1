//! The wire formats of the providers.
//!
//! DeepSeek and OpenAI share the `/chat/completions` format, so one adapter serves both.
//! Anthropic has the Messages API. A request is built, and a reply read, without any network.

use crate::ai::config::{AiConfig, Provider};
use crate::ai::message::{
    call_views, outcome_views, tool_views, turns, Assistant, Call, ChatMsg, Outcome, Reply, Role,
    Tool, ToolCall, ToolResult, ToolSpec, Turn,
};
use crate::json::{
    an_added_field_is_set, json_read, json_written, number_of, object, read_json, reads, stored,
    write_json, Doc, Json,
};
use crate::text::{
    blank, chars_of, decimal, decimal_text, is_blank, join, join_strs, same_text, string_of, strs,
};
use vstd::prelude::*;

verus! {

/// Anthropic pins the wire format to a dated version.
pub const ANTHROPIC_VERSION: &'static str = "2023-06-01";

/// Output cap. Generous enough for a chatty tool-calling turn without risking a timeout.
pub const MAX_TOKENS: i64 = 4096;

// ---------------------------------------------------------------------------
// OpenAI / DeepSeek
// ---------------------------------------------------------------------------

/// A message of text.
pub open spec fn text_message(role: Seq<char>, text: Seq<char>) -> Doc {
    object().with("role"@, Doc::Text(role)).with("content"@, Doc::Text(text))
}

fn text_msg(role: &str, text: &str) -> (r: Json)
    ensures
        r@ == text_message(role@, text@),
{
    Json::empty().with("role", Json::text(role)).with("content", Json::text(text))
}

/// A tool call as OpenAI takes it: the arguments are the text of a document.
pub open spec fn openai_call(call: Call) -> Doc {
    object().with("id"@, Doc::Text(call.id)).with("type"@, Doc::Text("function"@)).with(
        "function"@,
        object().with("name"@, Doc::Text(call.name)).with(
            "arguments"@,
            Doc::Text(json_written(stored(call.arguments))),
        ),
    )
}

fn openai_call_json(call: &ToolCall) -> (r: Json)
    ensures
        r@ == openai_call(call@),
{
    let arguments = write_json(&call.arguments);
    Json::empty().with("id", Json::text(call.id.as_str())).with("type", Json::text("function")).with(
        "function",
        Json::empty().with("name", Json::text(call.name.as_str())).with(
            "arguments",
            Json::Text(arguments),
        ),
    )
}

/// The messages that a turn becomes: each tool's result is one of its own.
pub open spec fn openai_turn(turn: Turn) -> Seq<Doc> {
    match turn.role {
        Role::System => seq![text_message("system"@, turn.text)],
        Role::User => seq![text_message("user"@, turn.text)],
        Role::Assistant => {
            let said = object().with("role"@, Doc::Text("assistant"@)).with(
                "content"@,
                if turn.text.len() == 0 {
                    Doc::Null
                } else {
                    Doc::Text(turn.text)
                },
            );
            seq![
                if turn.calls.len() == 0 {
                    said
                } else {
                    said.with("tool_calls"@, Doc::List(turn.calls.map_values(|c: Call| openai_call(c))))
                },
            ]
        },
        Role::Tool => turn.outcomes.map_values(|o: Outcome| openai_outcome(o)),
    }
}

/// A tool's result as OpenAI takes it, paired by id.
pub open spec fn openai_outcome(outcome: Outcome) -> Doc {
    object().with("role"@, Doc::Text("tool"@)).with("tool_call_id"@, Doc::Text(outcome.id)).with(
        "content"@,
        Doc::Text(outcome.content),
    )
}

fn openai_outcome_json(result: &ToolResult) -> (r: Json)
    ensures
        r@ == openai_outcome(result@),
{
    Json::empty().with("role", Json::text("tool")).with(
        "tool_call_id",
        Json::text(result.id.as_str()),
    ).with("content", Json::text(result.content.as_str()))
}

/// The messages of a conversation, in order.
pub open spec fn openai_messages(conversation: Seq<Turn>) -> Seq<Doc>
    decreases conversation.len(),
{
    if conversation.len() == 0 {
        Seq::empty()
    } else {
        openai_messages(conversation.drop_last()) + openai_turn(conversation.last())
    }
}

/// A tool as OpenAI is told of it.
pub open spec fn openai_tool(tool: Tool) -> Doc {
    object().with("type"@, Doc::Text("function"@)).with(
        "function"@,
        object().with("name"@, Doc::Text(tool.name)).with(
            "description"@,
            Doc::Text(tool.description),
        ).with("parameters"@, tool.parameters),
    )
}

/// The body of an OpenAI request.
pub open spec fn openai_request(model: Seq<char>, conversation: Seq<Turn>, tools: Seq<Tool>) -> Doc {
    let body = object().with("model"@, Doc::Text(model)).with(
        "messages"@,
        Doc::List(openai_messages(conversation)),
    );
    if tools.len() == 0 {
        body
    } else {
        body.with("tools"@, Doc::List(tools.map_values(|t: Tool| openai_tool(t)))).with(
            "tool_choice"@,
            Doc::Text("auto"@),
        )
    }
}

/// What a list of documents says.
pub open spec fn docs_of(v: Seq<Json>) -> Seq<Doc> {
    v.map_values(|j: Json| j@)
}

fn openai_calls(calls: &Vec<ToolCall>) -> (r: Json)
    ensures
        r@ == Doc::List(call_views(calls@).map_values(|c: Call| openai_call(c))),
{
    let mut out: Vec<Json> = Vec::new();
    for i in 0..calls.len()
        invariant
            out.len() == i,
            forall|k: int| 0 <= k < i ==> (#[trigger] out@[k])@ == openai_call(calls@[k]@),
    {
        out.push(openai_call_json(&calls[i]));
    }
    assert(docs_of(out@) =~= call_views(calls@).map_values(|c: Call| openai_call(c)));
    Json::list(out)
}

fn openai_push(msg: &ChatMsg, messages: &mut Vec<Json>)
    ensures
        docs_of(final(messages)@) == docs_of(old(messages)@) + openai_turn(msg@),
{
    let ghost before = docs_of(messages@);
    match msg.role {
        Role::System => {
            messages.push(text_msg("system", msg.text.as_str()));
            assert(docs_of(messages@) =~= before + openai_turn(msg@));
        },
        Role::User => {
            messages.push(text_msg("user", msg.text.as_str()));
            assert(docs_of(messages@) =~= before + openai_turn(msg@));
        },
        Role::Assistant => {
            let content = if msg.text.as_str().unicode_len() == 0 {
                Json::Null
            } else {
                Json::text(msg.text.as_str())
            };
            let mut entry = Json::empty().with("role", Json::text("assistant")).with(
                "content",
                content,
            );
            if msg.tool_calls.len() > 0 {
                entry = entry.with("tool_calls", openai_calls(&msg.tool_calls));
            }
            messages.push(entry);
            assert(docs_of(messages@) =~= before + openai_turn(msg@));
        },
        Role::Tool => {
            let ghost all = outcome_views(msg.tool_results@).map_values(
                |o: Outcome| openai_outcome(o),
            );
            assert(docs_of(messages@) =~= before + all.take(0));
            for i in 0..msg.tool_results.len()
                invariant
                    all == outcome_views(msg.tool_results@).map_values(
                        |o: Outcome| openai_outcome(o),
                    ),
                    docs_of(messages@) == before + all.take(i as int),
            {
                let ghost so_far = docs_of(messages@);
                messages.push(openai_outcome_json(&msg.tool_results[i]));
                assert(all[i as int] == openai_outcome(msg.tool_results@[i as int]@));
                assert(docs_of(messages@) =~= so_far.push(all[i as int]));
                assert(docs_of(messages@) =~= before + all.take(i + 1));
            }
            assert(all.take(all.len() as int) =~= all);
        },
    }
}

/// The body of an OpenAI request: every turn of the conversation, and the tools on offer.
pub fn openai_body(model: &str, conversation: &[ChatMsg], tools: &[ToolSpec]) -> (r: Json)
    ensures
        r@ == openai_request(model@, turns(conversation@), tool_views(tools@)),
{
    let ghost all = turns(conversation@);
    let mut messages: Vec<Json> = Vec::new();
    assert(docs_of(messages@) =~= openai_messages(all.take(0)));
    for i in 0..conversation.len()
        invariant
            all == turns(conversation@),
            docs_of(messages@) == openai_messages(all.take(i as int)),
    {
        openai_push(&conversation[i], &mut messages);
        assert(all.take(i + 1).drop_last() =~= all.take(i as int));
        assert(all.take(i + 1).last() == conversation@[i as int]@);
    }
    assert(all.take(all.len() as int) =~= all);
    let mut body = Json::empty().with("model", Json::text(model)).with(
        "messages",
        Json::list(messages),
    );
    if tools.len() > 0 {
        let mut listed: Vec<Json> = Vec::new();
        for i in 0..tools.len()
            invariant
                listed.len() == i,
                forall|k: int| 0 <= k < i ==> (#[trigger] listed@[k])@ == openai_tool(tools@[k]@),
        {
            let tool = &tools[i];
            listed.push(
                Json::empty().with("type", Json::text("function")).with(
                    "function",
                    Json::empty().with("name", Json::text(tool.name.as_str())).with(
                        "description",
                        Json::text(tool.description.as_str()),
                    ).with("parameters", tool.parameters.clone()),
                ),
            );
        }
        assert(docs_of(listed@) =~= tool_views(tools@).map_values(|t: Tool| openai_tool(t)));
        body = body.with("tools", Json::list(listed)).with("tool_choice", Json::text("auto"));
    }
    body
}

/// The text of a field, or nothing.
pub open spec fn text_or_empty(d: Doc, key: Seq<char>) -> Seq<char> {
    match d.text_field(key) {
        Some(t) => t,
        None => Seq::empty(),
    }
}

fn text_or_blank(j: &Json, key: &str) -> (r: String)
    ensures
        r@ == text_or_empty(j@, key@),
{
    match j.get_str(key) {
        Some(t) => t.to_string(),
        None => String::new(),
    }
}

/// The first choice of a list of them; an object counts by the key `0`.
pub open spec fn first_choice(d: Doc) -> Option<Doc> {
    match d {
        Doc::List(v) => if v.len() > 0 {
            Some(v[0])
        } else {
            None
        },
        _ => d.field("0"@),
    }
}

/// The message of an OpenAI reply.
pub open spec fn openai_message(d: Doc) -> Option<Doc> {
    match d.field("choices"@) {
        Some(choices) => match first_choice(choices) {
            Some(choice) => choice.field("message"@),
            None => None,
        },
        None => None,
    }
}

/// The arguments that were read, or none where they were no document.
pub open spec fn arguments_of(read: Result<Doc, Seq<char>>) -> Doc {
    match read {
        Ok(d) => d,
        Err(_) => object(),
    }
}

pub fn arguments_from(read: Result<Json, String>) -> (r: Json)
    ensures
        r@ == arguments_of(reads(read)),
{
    match read {
        Ok(json) => json,
        Err(_) => Json::empty(),
    }
}

/// The arguments that a text stands for: a blank one stands for none.
pub open spec fn written_arguments(raw: Seq<char>) -> Doc {
    if is_blank(raw) {
        object()
    } else {
        arguments_of(json_read(raw))
    }
}

/// A tool call as OpenAI gives it.
pub open spec fn openai_given_call(d: Doc) -> Call {
    let function = d.field("function"@);
    Call {
        id: text_or_empty(d, "id"@),
        name: match function {
            Some(f) => text_or_empty(f, "name"@),
            None => Seq::empty(),
        },
        arguments: written_arguments(
            match function {
                Some(f) => text_or_empty(f, "arguments"@),
                None => Seq::empty(),
            },
        ),
    }
}

fn openai_read_call(call: &Json) -> (r: ToolCall)
    ensures
        r@ == openai_given_call(call@),
{
    let id = text_or_blank(call, "id");
    let function = call.get("function");
    let name = match function {
        Some(f) => text_or_blank(f, "name"),
        None => String::new(),
    };
    let raw = match function {
        Some(f) => text_or_blank(f, "arguments"),
        None => String::new(),
    };
    let arguments = if blank(raw.as_str()) {
        Json::empty()
    } else {
        arguments_from(read_json(raw.as_str()))
    };
    let r = ToolCall { id, name, arguments };
    assert(r@ =~= openai_given_call(call@));
    r
}

/// What an OpenAI reply says.
pub open spec fn openai_reply(d: Doc) -> Result<Reply, Seq<char>> {
    match openai_message(d) {
        None => Err("no choices in response"@),
        Some(message) => Ok(
            Reply {
                text: text_or_empty(message, "content"@),
                calls: match message.list_field("tool_calls"@) {
                    Some(calls) => calls.map_values(|c: Doc| openai_given_call(c)),
                    None => Seq::empty(),
                },
            },
        ),
    }
}

/// What a reply, or an error, says.
pub open spec fn reply_result(r: Result<Assistant, String>) -> Result<Reply, Seq<char>> {
    match r {
        Ok(a) => Ok(a@),
        Err(e) => Err(e@),
    }
}

/// Read an OpenAI reply.
pub fn parse_openai(value: &Json) -> (r: Result<Assistant, String>)
    ensures
        reply_result(r) == openai_reply(value@),
{
    let choice = match value.get("choices") {
        Some(choices) => match choices.as_list() {
            Some(list) => if list.len() > 0 {
                assert(choices@->List_0[0] == list@[0]@);
                Some(&list[0])
            } else {
                None
            },
            None => choices.get("0"),
        },
        None => None,
    };
    let message = match choice {
        Some(choice) => choice.get("message"),
        None => None,
    };
    match message {
        None => Err("no choices in response".to_string()),
        Some(message) => {
            let text = text_or_blank(message, "content");
            let mut tool_calls: Vec<ToolCall> = Vec::new();
            if let Some(calls) = message.get_list("tool_calls") {
                for i in 0..calls.len()
                    invariant
                        tool_calls.len() == i,
                        forall|k: int|
                            0 <= k < i ==> (#[trigger] tool_calls@[k])@ == openai_given_call(
                                calls@[k]@,
                            ),
                {
                    tool_calls.push(openai_read_call(&calls[i]));
                }
                assert(call_views(tool_calls@) =~= docs_of(calls@).map_values(
                    |c: Doc| openai_given_call(c),
                ));
            } else {
                assert(call_views(tool_calls@) =~= Seq::empty());
            }
            Ok(Assistant { text, tool_calls })
        },
    }
}

// ---------------------------------------------------------------------------
// Anthropic
// ---------------------------------------------------------------------------

/// The texts of the system turns, in order.
pub open spec fn system_texts(conversation: Seq<Turn>) -> Seq<Seq<char>>
    decreases conversation.len(),
{
    if conversation.len() == 0 {
        Seq::empty()
    } else if conversation.last().role == Role::System {
        system_texts(conversation.drop_last()).push(conversation.last().text)
    } else {
        system_texts(conversation.drop_last())
    }
}

/// A block of text.
pub open spec fn text_block(text: Seq<char>) -> Doc {
    object().with("type"@, Doc::Text("text"@)).with("text"@, Doc::Text(text))
}

/// A tool call as Anthropic takes it.
pub open spec fn call_block(call: Call) -> Doc {
    object().with("type"@, Doc::Text("tool_use"@)).with("id"@, Doc::Text(call.id)).with(
        "name"@,
        Doc::Text(call.name),
    ).with("input"@, call.arguments)
}

fn call_block_json(call: &ToolCall) -> (r: Json)
    ensures
        r@ == call_block(call@),
{
    Json::empty().with("type", Json::text("tool_use")).with("id", Json::text(call.id.as_str())).with(
        "name",
        Json::text(call.name.as_str()),
    ).with("input", call.arguments.clone())
}

/// A tool's result as Anthropic takes it.
pub open spec fn outcome_block(outcome: Outcome) -> Doc {
    object().with("type"@, Doc::Text("tool_result"@)).with(
        "tool_use_id"@,
        Doc::Text(outcome.id),
    ).with("content"@, Doc::Text(outcome.content))
}

fn outcome_block_json(result: &ToolResult) -> (r: Json)
    ensures
        r@ == outcome_block(result@),
{
    Json::empty().with("type", Json::text("tool_result")).with(
        "tool_use_id",
        Json::text(result.id.as_str()),
    ).with("content", Json::text(result.content.as_str()))
}

/// The blocks of an assistant's turn: its text where it has any, then its calls.
pub open spec fn assistant_blocks(turn: Turn) -> Seq<Doc> {
    (if turn.text.len() == 0 {
        Seq::<Doc>::empty()
    } else {
        seq![text_block(turn.text)]
    }) + turn.calls.map_values(|c: Call| call_block(c))
}

/// A message whose content is blocks.
pub open spec fn block_message(role: Seq<char>, blocks: Seq<Doc>) -> Doc {
    object().with("role"@, Doc::Text(role)).with("content"@, Doc::List(blocks))
}

/// The messages that a turn becomes: none for a system turn, which goes elsewhere; tool results
/// ride back inside a user turn.
pub open spec fn anthropic_turn(turn: Turn) -> Seq<Doc> {
    match turn.role {
        Role::System => Seq::empty(),
        Role::User => seq![text_message("user"@, turn.text)],
        Role::Assistant => seq![block_message("assistant"@, assistant_blocks(turn))],
        Role::Tool => seq![
            block_message("user"@, turn.outcomes.map_values(|o: Outcome| outcome_block(o))),
        ],
    }
}

/// The messages of a conversation, in order.
pub open spec fn anthropic_messages(conversation: Seq<Turn>) -> Seq<Doc>
    decreases conversation.len(),
{
    if conversation.len() == 0 {
        Seq::empty()
    } else {
        anthropic_messages(conversation.drop_last()) + anthropic_turn(conversation.last())
    }
}

/// A tool as Anthropic is told of it.
pub open spec fn anthropic_tool(tool: Tool) -> Doc {
    object().with("name"@, Doc::Text(tool.name)).with(
        "description"@,
        Doc::Text(tool.description),
    ).with("input_schema"@, tool.parameters)
}

/// The system prompt of a conversation.
pub open spec fn system_prompt(conversation: Seq<Turn>) -> Seq<char> {
    join(system_texts(conversation), "\n\n"@)
}

/// The body of an Anthropic request: the system prompt is a field, not a message.
pub open spec fn anthropic_request(
    model: Seq<char>,
    conversation: Seq<Turn>,
    tools: Seq<Tool>,
) -> Doc {
    let body = object().with("model"@, Doc::Text(model)).with(
        "max_tokens"@,
        Doc::Number(number_of(MAX_TOKENS)),
    ).with("messages"@, Doc::List(anthropic_messages(conversation)));
    let body = if system_prompt(conversation).len() == 0 {
        body
    } else {
        body.with("system"@, Doc::Text(system_prompt(conversation)))
    };
    if tools.len() == 0 {
        body
    } else {
        body.with("tools"@, Doc::List(tools.map_values(|t: Tool| anthropic_tool(t))))
    }
}

fn system_text(conversation: &[ChatMsg]) -> (r: String)
    ensures
        r@ == system_prompt(turns(conversation@)),
{
    let ghost all = turns(conversation@);
    let mut found: Vec<&str> = Vec::new();
    assert(strs(found@) =~= system_texts(all.take(0)));
    for i in 0..conversation.len()
        invariant
            all == turns(conversation@),
            strs(found@) == system_texts(all.take(i as int)),
    {
        assert(all.take(i + 1).drop_last() =~= all.take(i as int));
        assert(all.take(i + 1).last() == conversation@[i as int]@);
        if conversation[i].role == Role::System {
            let ghost before = strs(found@);
            found.push(conversation[i].text.as_str());
            assert(strs(found@) =~= before.push(conversation@[i as int]@.text));
        }
    }
    assert(all.take(all.len() as int) =~= all);
    join_strs(found.as_slice(), "\n\n")
}

fn anthropic_blocks(msg: &ChatMsg) -> (r: Json)
    ensures
        r@ == Doc::List(assistant_blocks(msg@)),
{
    let mut blocks: Vec<Json> = Vec::new();
    if msg.text.as_str().unicode_len() > 0 {
        blocks.push(
            Json::empty().with("type", Json::text("text")).with(
                "text",
                Json::text(msg.text.as_str()),
            ),
        );
    }
    let ghost head = if msg@.text.len() == 0 {
        Seq::<Doc>::empty()
    } else {
        seq![text_block(msg@.text)]
    };
    let ghost all = call_views(msg.tool_calls@).map_values(|c: Call| call_block(c));
    assert(docs_of(blocks@) =~= head + all.take(0));
    for i in 0..msg.tool_calls.len()
        invariant
            all == call_views(msg.tool_calls@).map_values(|c: Call| call_block(c)),
            docs_of(blocks@) == head + all.take(i as int),
    {
        let ghost so_far = docs_of(blocks@);
        blocks.push(call_block_json(&msg.tool_calls[i]));
        assert(all[i as int] == call_block(msg.tool_calls@[i as int]@));
        assert(docs_of(blocks@) =~= so_far.push(all[i as int]));
        assert(docs_of(blocks@) =~= head + all.take(i + 1));
    }
    assert(all.take(all.len() as int) =~= all);
    Json::list(blocks)
}

fn outcome_blocks(results: &Vec<ToolResult>) -> (r: Json)
    ensures
        r@ == Doc::List(outcome_views(results@).map_values(|o: Outcome| outcome_block(o))),
{
    let mut blocks: Vec<Json> = Vec::new();
    for i in 0..results.len()
        invariant
            blocks.len() == i,
            forall|k: int| 0 <= k < i ==> (#[trigger] blocks@[k])@ == outcome_block(results@[k]@),
    {
        blocks.push(outcome_block_json(&results[i]));
    }
    assert(docs_of(blocks@) =~= outcome_views(results@).map_values(
        |o: Outcome| outcome_block(o),
    ));
    Json::list(blocks)
}

fn anthropic_push(msg: &ChatMsg, messages: &mut Vec<Json>)
    ensures
        docs_of(final(messages)@) == docs_of(old(messages)@) + anthropic_turn(msg@),
{
    let ghost before = docs_of(messages@);
    match msg.role {
        Role::System => {
            assert(before + Seq::<Doc>::empty() =~= before);
        },
        Role::User => {
            messages.push(text_msg("user", msg.text.as_str()));
            assert(docs_of(messages@) =~= before + anthropic_turn(msg@));
        },
        Role::Assistant => {
            messages.push(
                Json::empty().with("role", Json::text("assistant")).with(
                    "content",
                    anthropic_blocks(msg),
                ),
            );
            assert(docs_of(messages@) =~= before + anthropic_turn(msg@));
        },
        Role::Tool => {
            messages.push(
                Json::empty().with("role", Json::text("user")).with(
                    "content",
                    outcome_blocks(&msg.tool_results),
                ),
            );
            assert(docs_of(messages@) =~= before + anthropic_turn(msg@));
        },
    }
}

/// The body of an Anthropic request: every turn of the conversation, and the tools on offer.
pub fn anthropic_body(model: &str, conversation: &[ChatMsg], tools: &[ToolSpec]) -> (r: Json)
    ensures
        r@ == anthropic_request(model@, turns(conversation@), tool_views(tools@)),
{
    let ghost all = turns(conversation@);
    let system = system_text(conversation);
    let mut messages: Vec<Json> = Vec::new();
    assert(docs_of(messages@) =~= anthropic_messages(all.take(0)));
    for i in 0..conversation.len()
        invariant
            all == turns(conversation@),
            docs_of(messages@) == anthropic_messages(all.take(i as int)),
    {
        anthropic_push(&conversation[i], &mut messages);
        assert(all.take(i + 1).drop_last() =~= all.take(i as int));
        assert(all.take(i + 1).last() == conversation@[i as int]@);
    }
    assert(all.take(all.len() as int) =~= all);
    let mut body = Json::empty().with("model", Json::text(model)).with(
        "max_tokens",
        Json::whole(MAX_TOKENS),
    ).with("messages", Json::list(messages));
    if system.as_str().unicode_len() > 0 {
        body = body.with("system", Json::Text(system));
    }
    if tools.len() > 0 {
        let mut listed: Vec<Json> = Vec::new();
        for i in 0..tools.len()
            invariant
                listed.len() == i,
                forall|k: int|
                    0 <= k < i ==> (#[trigger] listed@[k])@ == anthropic_tool(tools@[k]@),
        {
            let tool = &tools[i];
            listed.push(
                Json::empty().with("name", Json::text(tool.name.as_str())).with(
                    "description",
                    Json::text(tool.description.as_str()),
                ).with("input_schema", tool.parameters.clone()),
            );
        }
        assert(docs_of(listed@) =~= tool_views(tools@).map_values(|t: Tool| anthropic_tool(t)));
        body = body.with("tools", Json::list(listed));
    }
    body
}

/// The text of the text blocks, run together.
pub open spec fn blocks_text(blocks: Seq<Doc>) -> Seq<char>
    decreases blocks.len(),
{
    if blocks.len() == 0 {
        Seq::empty()
    } else {
        blocks_text(blocks.drop_last()) + if blocks.last().text_field("type"@) == Some("text"@) {
            text_or_empty(blocks.last(), "text"@)
        } else {
            Seq::empty()
        }
    }
}

/// A tool call as Anthropic gives it.
pub open spec fn anthropic_given_call(d: Doc) -> Call {
    Call {
        id: text_or_empty(d, "id"@),
        name: text_or_empty(d, "name"@),
        arguments: match d.field("input"@) {
            Some(input) => input,
            None => object(),
        },
    }
}

/// The tool calls among the blocks, in order.
pub open spec fn blocks_calls(blocks: Seq<Doc>) -> Seq<Call>
    decreases blocks.len(),
{
    if blocks.len() == 0 {
        Seq::empty()
    } else if blocks.last().text_field("type"@) == Some("tool_use"@) {
        blocks_calls(blocks.drop_last()).push(anthropic_given_call(blocks.last()))
    } else {
        blocks_calls(blocks.drop_last())
    }
}

/// What an Anthropic reply says.
pub open spec fn anthropic_reply(d: Doc) -> Result<Reply, Seq<char>> {
    match d.list_field("content"@) {
        None => Err("no content in response"@),
        Some(blocks) => Ok(Reply { text: blocks_text(blocks), calls: blocks_calls(blocks) }),
    }
}

/// Read an Anthropic reply.
pub fn parse_anthropic(value: &Json) -> (r: Result<Assistant, String>)
    ensures
        reply_result(r) == anthropic_reply(value@),
{
    match value.get_list("content") {
        None => Err("no content in response".to_string()),
        Some(blocks) => {
            let ghost all = docs_of(blocks@);
            let mut text = String::new();
            let mut tool_calls: Vec<ToolCall> = Vec::new();
            proof {
                reveal_strlit("text");
                reveal_strlit("tool_use");
                assert("text"@.len() == 4 && "tool_use"@.len() == 8);
                assert(text@ =~= blocks_text(all.take(0)));
                assert(call_views(tool_calls@) =~= blocks_calls(all.take(0)));
            }
            for i in 0..blocks.len()
                invariant
                    all == docs_of(blocks@),
                    text@ == blocks_text(all.take(i as int)),
                    call_views(tool_calls@) == blocks_calls(all.take(i as int)),
                    "text"@ != "tool_use"@,
            {
                assert(all.take(i + 1).drop_last() =~= all.take(i as int));
                assert(all.take(i + 1).last() == blocks@[i as int]@);
                let block = &blocks[i];
                let ghost said = text@;
                let ghost asked = call_views(tool_calls@);
                assert(said + Seq::<char>::empty() =~= said);
                if let Some(kind) = block.get_str("type") {
                    if same_text(kind, "text") {
                        if let Some(chunk) = block.get_str("text") {
                            text.append(chunk);
                        }
                    } else if same_text(kind, "tool_use") {
                        let call = ToolCall {
                            id: text_or_blank(block, "id"),
                            name: text_or_blank(block, "name"),
                            arguments: match block.get("input") {
                                Some(input) => input.clone(),
                                None => Json::empty(),
                            },
                        };
                        assert(call@ =~= anthropic_given_call(block@));
                        tool_calls.push(call);
                        assert(call_views(tool_calls@) =~= asked.push(
                            anthropic_given_call(block@),
                        ));
                    }
                }
            }
            assert(all.take(all.len() as int) =~= all);
            Ok(Assistant { text, tool_calls })
        },
    }
}

// ---------------------------------------------------------------------------
// One completion
// ---------------------------------------------------------------------------

/// A request to send: where to, with what headers, and its body.
pub struct Request {
    pub url: String,
    pub headers: Vec<(&'static str, String)>,
    pub body: Json,
}

/// What the headers say.
pub open spec fn header_views(v: Seq<(&'static str, String)>) -> Seq<(Seq<char>, Seq<char>)> {
    v.map_values(|h: (&'static str, String)| (h.0@, h.1@))
}

/// The headers of a request: each wire format takes its key its own way.
pub open spec fn request_headers(provider: Provider, key: Seq<char>) -> Seq<(Seq<char>, Seq<char>)> {
    if provider == Provider::Anthropic {
        seq![("x-api-key"@, key), ("anthropic-version"@, ANTHROPIC_VERSION@)]
    } else {
        seq![("authorization"@, "Bearer "@ + key)]
    }
}

/// The headers that a request to `provider` carries.
pub fn key_headers(provider: Provider, key: &str) -> (r: Vec<(&'static str, String)>)
    ensures
        header_views(r@) == request_headers(provider, key@),
{
    let mut headers: Vec<(&'static str, String)> = Vec::new();
    if provider.is_anthropic() {
        headers.push(("x-api-key", key.to_string()));
        headers.push(("anthropic-version", ANTHROPIC_VERSION.to_string()));
    } else {
        headers.push(("authorization", "Bearer ".to_string().concat(key)));
    }
    assert(header_views(headers@) =~= request_headers(provider, key@));
    headers
}

/// The request for one completion of a conversation. `usual` is the provider's default model.
pub fn request(
    config: &AiConfig,
    usual: &str,
    base_url: &str,
    key: &str,
    conversation: &[ChatMsg],
    tools: &[ToolSpec],
) -> (r: Request)
    ensures
        header_views(r.headers@) == request_headers(config.provider, key@),
        config.provider == Provider::Anthropic ==> {
            &&& r.url@ == base_url@ + "/messages"@
            &&& r.body@ == anthropic_request(
                config.chosen_model(usual@),
                turns(conversation@),
                tool_views(tools@),
            )
        },
        config.provider != Provider::Anthropic ==> {
            &&& r.url@ == base_url@ + "/chat/completions"@
            &&& r.body@ == openai_request(
                config.chosen_model(usual@),
                turns(conversation@),
                tool_views(tools@),
            )
        },
{
    let model = config.model(usual);
    let headers = key_headers(config.provider, key);
    if config.provider.is_anthropic() {
        Request {
            url: base_url.to_string().concat("/messages"),
            headers,
            body: anthropic_body(model.as_str(), conversation, tools),
        }
    } else {
        Request {
            url: base_url.to_string().concat("/chat/completions"),
            headers,
            body: openai_body(model.as_str(), conversation, tools),
        }
    }
}

/// The message of an error body: the one it names, else its first 200 characters.
pub open spec fn error_words(read: Result<Doc, Seq<char>>, body: Seq<char>) -> Seq<char> {
    let named = match read {
        Ok(d) => match d.field("error"@) {
            Some(error) => error.text_field("message"@),
            None => None,
        },
        Err(_) => None,
    };
    match named {
        Some(message) => message,
        None => if body.len() <= 200 {
            body
        } else {
            body.take(200)
        },
    }
}

/// The message of an error body, given what could be read of it.
pub fn error_message(read: &Result<Json, String>, body: &str) -> (r: String)
    ensures
        r@ == error_words(reads(*read), body@),
{
    let named = match read {
        Ok(json) => match json.get("error") {
            Some(error) => error.get_str("message"),
            None => None,
        },
        Err(_) => None,
    };
    match named {
        Some(message) => message.to_string(),
        None => {
            let chars = chars_of(body);
            if chars.len() <= 200 {
                body.to_string()
            } else {
                let r = string_of(chars.as_slice(), 0, 200);
                assert(body@.subrange(0, 200) =~= body@.take(200));
                r
            }
        },
    }
}

/// What is said of an answer with an error status.
pub open spec fn provider_complaint(
    status: u16,
    read: Result<Doc, Seq<char>>,
    body: Seq<char>,
) -> Seq<char> {
    "provider error "@ + decimal(status as nat) + ": "@ + error_words(read, body)
}

/// Pull a human-readable message out of an error body, falling back to the raw text.
pub fn provider_error(status: u16, body: &str) -> (r: String)
    ensures
        r@ == provider_complaint(status, json_read(body@), body@),
{
    "provider error ".to_string().concat(decimal_text(status as u64).as_str()).concat(": ").concat(
        error_message(&read_json(body), body).as_str(),
    )
}

/// What an answer's body says, in the provider's format.
pub open spec fn completion(provider: Provider, read: Result<Doc, Seq<char>>) -> Result<
    Reply,
    Seq<char>,
> {
    match read {
        Err(e) => Err("bad response JSON: "@ + e),
        Ok(d) => if provider == Provider::Anthropic {
            anthropic_reply(d)
        } else {
            openai_reply(d)
        },
    }
}

/// Read what could be made of an answer's body, in the provider's format.
pub fn read_completion(provider: Provider, read: Result<Json, String>) -> (r: Result<
    Assistant,
    String,
>)
    ensures
        reply_result(r) == completion(provider, reads(read)),
{
    match read {
        Err(error) => Err("bad response JSON: ".to_string().concat(error.as_str())),
        Ok(json) => if provider.is_anthropic() {
            parse_anthropic(&json)
        } else {
            parse_openai(&json)
        },
    }
}

/// What came of a completion: the answer's status and body, in the provider's format.
pub fn complete(provider: Provider, status: u16, body: &str) -> (r: Result<Assistant, String>)
    ensures
        reply_result(r) == if 200 <= status < 300 {
            completion(provider, json_read(body@))
        } else {
            Err(provider_complaint(status, json_read(body@), body@))
        },
{
    if status >= 200 && status < 300 {
        read_completion(provider, read_json(body))
    } else {
        Err(provider_error(status, body))
    }
}

/// The model that stands first in a list of models.
pub open spec fn first_model(read: Result<Doc, Seq<char>>) -> Result<Seq<char>, Seq<char>> {
    match read {
        Err(e) => Err("bad response JSON: "@ + e),
        Ok(d) => match d.list_field("data"@) {
            Some(models) => if models.len() > 0 && models[0].text_field("id"@) is Some {
                Ok(models[0].text_field("id"@)->0)
            } else {
                Err("no model is listed"@)
            },
            None => Err("no model is listed"@),
        },
    }
}

pub open spec fn text_result(r: Result<String, String>) -> Result<Seq<char>, Seq<char>> {
    match r {
        Ok(text) => Ok(text@),
        Err(e) => Err(e@),
    }
}

/// The first model of what could be read of a list.
pub fn read_models(read: Result<Json, String>) -> (r: Result<String, String>)
    ensures
        text_result(r) == first_model(reads(read)),
{
    match read {
        Err(error) => Err("bad response JSON: ".to_string().concat(error.as_str())),
        Ok(json) => {
            if let Some(models) = json.get_list("data") {
                if models.len() > 0 {
                    assert(json@.list_field("data"@)->0[0] == models@[0]@);
                    if let Some(id) = models[0].get_str("id") {
                        return Ok(id.to_string());
                    }
                }
            }
            Err("no model is listed".to_string())
        },
    }
}

/// The model that a provider lists first, from the answer to a request for its models.
pub fn listed_model(status: u16, body: &str) -> (r: Result<String, String>)
    ensures
        text_result(r) == if 200 <= status < 300 {
            first_model(json_read(body@))
        } else {
            Err(provider_complaint(status, json_read(body@), body@))
        },
{
    if status >= 200 && status < 300 {
        read_models(read_json(body))
    } else {
        Err(provider_error(status, body))
    }
}

// ---------------------------------------------------------------------------
// Laws
// ---------------------------------------------------------------------------

proof fn lemma_field_names()
    ensures
        "type"@ != "text"@,
        "type"@ != "id"@,
        "type"@ != "name"@,
        "type"@ != "input"@,
        "id"@ != "name"@,
        "id"@ != "input"@,
        "id"@ != "function"@,
        "name"@ != "input"@,
        "name"@ != "arguments"@,
        "role"@ != "content"@,
        "role"@ != "tool_calls"@,
        "content"@ != "tool_calls"@,
        "type"@ != "function"@,
        "text"@ != "tool_use"@,
{
    reveal_strlit("type");
    reveal_strlit("text");
    reveal_strlit("id");
    reveal_strlit("name");
    reveal_strlit("input");
    reveal_strlit("function");
    reveal_strlit("arguments");
    reveal_strlit("role");
    reveal_strlit("content");
    reveal_strlit("tool_calls");
    reveal_strlit("tool_use");
    assert("type"@[1] == 'y' && "text"@[1] == 'e' && "name"@[0] == 'n' && "type"@[0] == 't');
    assert("type"@.len() == 4 && "id"@.len() == 2 && "input"@.len() == 5 && "name"@.len() == 4);
    assert("function"@.len() == 8 && "arguments"@.len() == 9 && "role"@.len() == 4);
    assert("content"@.len() == 7 && "tool_calls"@.len() == 10 && "tool_use"@.len() == 8);
}

proof fn lemma_text_block(text: Seq<char>)
    ensures
        text_block(text).text_field("type"@) == Some("text"@),
        text_or_empty(text_block(text), "text"@) == text,
{
    lemma_field_names();
    let a = object().with("type"@, Doc::Text("text"@));
    an_added_field_is_set(object(), "type"@, Doc::Text("text"@), "type"@);
    an_added_field_is_set(a, "text"@, Doc::Text(text), "type"@);
    an_added_field_is_set(a, "text"@, Doc::Text(text), "text"@);
}

proof fn lemma_call_block(call: Call)
    ensures
        call_block(call).text_field("type"@) == Some("tool_use"@),
        anthropic_given_call(call_block(call)) == call,
{
    lemma_field_names();
    let a = object().with("type"@, Doc::Text("tool_use"@));
    let b = a.with("id"@, Doc::Text(call.id));
    let c = b.with("name"@, Doc::Text(call.name));
    let keys = seq!["type"@, "id"@, "name"@, "input"@];
    assert forall|i: int| 0 <= i < 4 implies call_block(call).field(#[trigger] keys[i])
        == if keys[i] == "input"@ {
        Some(call.arguments)
    } else if keys[i] == "name"@ {
        Some(Doc::Text(call.name))
    } else if keys[i] == "id"@ {
        Some(Doc::Text(call.id))
    } else {
        Some(Doc::Text("tool_use"@))
    } by {
        an_added_field_is_set(object(), "type"@, Doc::Text("tool_use"@), keys[i]);
        an_added_field_is_set(a, "id"@, Doc::Text(call.id), keys[i]);
        an_added_field_is_set(b, "name"@, Doc::Text(call.name), keys[i]);
        an_added_field_is_set(c, "input"@, call.arguments, keys[i]);
    }
    assert(keys[0] == "type"@ && keys[1] == "id"@ && keys[2] == "name"@ && keys[3] == "input"@);
    assert(anthropic_given_call(call_block(call)) =~= call);
}

proof fn lemma_call_blocks(head: Seq<Doc>, calls: Seq<Call>)
    ensures
        blocks_text(head + calls.map_values(|c: Call| call_block(c))) == blocks_text(head),
        blocks_calls(head + calls.map_values(|c: Call| call_block(c))) == blocks_calls(head)
            + calls,
    decreases calls.len(),
{
    let all = head + calls.map_values(|c: Call| call_block(c));
    if calls.len() == 0 {
        assert(all =~= head);
        assert(blocks_calls(head) + calls =~= blocks_calls(head));
    } else {
        let fewer = calls.drop_last();
        lemma_call_blocks(head, fewer);
        lemma_call_block(calls.last());
        lemma_field_names();
        assert(all.drop_last() =~= head + fewer.map_values(|c: Call| call_block(c)));
        assert(all.last() == call_block(calls.last()));
        assert(blocks_text(head) + Seq::<char>::empty() =~= blocks_text(head));
        assert((blocks_calls(head) + fewer).push(calls.last()) =~= blocks_calls(head) + calls);
    }
}

/// What an assistant says is written to Anthropic in the form in which it is read: its text and
/// its calls come back as they were.
pub proof fn anthropic_blocks_read_back(turn: Turn)
    ensures
        anthropic_reply(object().with("content"@, Doc::List(assistant_blocks(turn)))) == Ok::<
            Reply,
            Seq<char>,
        >(Reply { text: turn.text, calls: turn.calls }),
{
    let blocks = assistant_blocks(turn);
    an_added_field_is_set(object(), "content"@, Doc::List(blocks), "content"@);
    let head = if turn.text.len() == 0 {
        Seq::<Doc>::empty()
    } else {
        seq![text_block(turn.text)]
    };
    lemma_call_blocks(head, turn.calls);
    lemma_field_names();
    if turn.text.len() > 0 {
        lemma_text_block(turn.text);
        assert(head.drop_last() =~= Seq::<Doc>::empty());
        assert(head.last() == text_block(turn.text));
        assert(blocks_text(Seq::<Doc>::empty()) =~= Seq::<char>::empty());
        assert(blocks_text(head) =~= turn.text);
        assert(blocks_calls(Seq::<Doc>::empty()) =~= Seq::<Call>::empty());
        assert(blocks_calls(head) == blocks_calls(head.drop_last()));
    } else {
        assert(turn.text =~= Seq::<char>::empty());
        assert(blocks_text(head) =~= turn.text);
        assert(blocks_calls(head) =~= Seq::<Call>::empty());
    }
    assert(blocks_calls(head) + turn.calls =~= turn.calls);
}

proof fn lemma_openai_call(call: Call)
    ensures
        openai_given_call(openai_call(call)) == (Call {
            id: call.id,
            name: call.name,
            arguments: written_arguments(json_written(stored(call.arguments))),
        }),
{
    lemma_field_names();
    let written = Doc::Text(json_written(stored(call.arguments)));
    let f1 = object().with("name"@, Doc::Text(call.name));
    let f = f1.with("arguments"@, written);
    an_added_field_is_set(object(), "name"@, Doc::Text(call.name), "name"@);
    an_added_field_is_set(f1, "arguments"@, written, "name"@);
    an_added_field_is_set(f1, "arguments"@, written, "arguments"@);
    let a = object().with("id"@, Doc::Text(call.id));
    let b = a.with("type"@, Doc::Text("function"@));
    an_added_field_is_set(object(), "id"@, Doc::Text(call.id), "id"@);
    an_added_field_is_set(a, "type"@, Doc::Text("function"@), "id"@);
    an_added_field_is_set(b, "function"@, f, "id"@);
    an_added_field_is_set(b, "function"@, f, "function"@);
}

/// What an assistant says is written to OpenAI in the form in which it is read: its text comes
/// back as it was, and its calls with their ids and names, and with the arguments that their
/// text reads as.
pub proof fn openai_turns_read_back(turn: Turn)
    requires
        turn.role == Role::Assistant,
    ensures
        openai_reply(
            object().with(
                "choices"@,
                Doc::List(seq![object().with("message"@, openai_turn(turn)[0])]),
            ),
        ) == Ok::<Reply, Seq<char>>(
            Reply {
                text: turn.text,
                calls: turn.calls.map_values(
                    |c: Call|
                        Call {
                            arguments: written_arguments(json_written(stored(c.arguments))),
                            ..c
                        },
                ),
            },
        ),
{
    lemma_field_names();
    let message = openai_turn(turn)[0];
    let choice = object().with("message"@, message);
    let choices = Doc::List(seq![choice]);
    let d = object().with("choices"@, choices);
    an_added_field_is_set(object(), "choices"@, choices, "choices"@);
    an_added_field_is_set(object(), "message"@, message, "message"@);
    assert(openai_message(d) == Some(message));
    let content = if turn.text.len() == 0 {
        Doc::Null
    } else {
        Doc::Text(turn.text)
    };
    let role = Doc::Text("assistant"@);
    let r = object().with("role"@, role);
    let said = r.with("content"@, content);
    let calls = Doc::List(turn.calls.map_values(|c: Call| openai_call(c)));
    assert(object().field("tool_calls"@) is None);
    an_added_field_is_set(object(), "role"@, role, "tool_calls"@);
    an_added_field_is_set(r, "content"@, content, "content"@);
    an_added_field_is_set(r, "content"@, content, "tool_calls"@);
    an_added_field_is_set(said, "tool_calls"@, calls, "content"@);
    an_added_field_is_set(said, "tool_calls"@, calls, "tool_calls"@);
    assert(text_or_empty(message, "content"@) =~= turn.text);
    assert forall|i: int| 0 <= i < turn.calls.len() implies #[trigger] openai_given_call(
        openai_call(turn.calls[i]),
    ) == (Call {
        arguments: written_arguments(json_written(stored(turn.calls[i].arguments))),
        ..turn.calls[i]
    }) by {
        lemma_openai_call(turn.calls[i]);
    }
    assert(openai_reply(d)->Ok_0.calls =~= turn.calls.map_values(
        |c: Call|
            Call { arguments: written_arguments(json_written(stored(c.arguments))), ..c },
    ));
}

proof fn lemma_role(role: Seq<char>, content: Doc)
    ensures
        object().with("role"@, Doc::Text(role)).with("content"@, content).text_field("role"@)
            == Some(role),
{
    lemma_field_names();
    let r = object().with("role"@, Doc::Text(role));
    an_added_field_is_set(object(), "role"@, Doc::Text(role), "role"@);
    an_added_field_is_set(r, "content"@, content, "role"@);
}

/// Anthropic is sent the system prompt as a field of its own: every message is the user's or
/// the assistant's.
pub proof fn anthropic_messages_have_no_system_turn(conversation: Seq<Turn>, i: int)
    requires
        0 <= i < anthropic_messages(conversation).len(),
    ensures
        ({
            let role = anthropic_messages(conversation)[i].text_field("role"@);
            role == Some("user"@) || role == Some("assistant"@)
        }),
    decreases conversation.len(),
{
    let before = anthropic_messages(conversation.drop_last());
    if i < before.len() {
        anthropic_messages_have_no_system_turn(conversation.drop_last(), i);
    } else {
        let turn = conversation.last();
        lemma_role("user"@, Doc::Text(turn.text));
        lemma_role("assistant"@, Doc::List(assistant_blocks(turn)));
        lemma_role("user"@, Doc::List(turn.outcomes.map_values(|o: Outcome| outcome_block(o))));
    }
}

} // verus!
