//! A Model Context Protocol endpoint: what it answers to each request.
//!
//! The client posts JSON-RPC and gets a JSON reply. A tool call has to run against the live
//! project, so it is handed out to be run, and its outcome is then put into the reply. The
//! tools on offer are exactly the assistant's.

use crate::ai::message::{tool_views, Tool};
use crate::ai::provider::docs_of;
use crate::ai::tools::{all_tools, specs};
use crate::json::{
    json_read, json_written, number_of, object, read_json, reads, stored, write_json, Doc, Json,
};
use crate::release::CURRENT_VERSION;
use crate::text::{decimal, decimal_text, hex_char, hex_digit, is_hex_digit, opt_str, same_text, trim, trimmed};
use vstd::prelude::*;

verus! {

/// The protocol version to advertise when the client does not ask for one.
pub const DEFAULT_PROTOCOL: &'static str = "2025-06-18";

// ---------------------------------------------------------------------------
// The token
// ---------------------------------------------------------------------------

/// `getrandom::getrandom` on sixteen bytes; nothing where it fails. Nothing is said of what the
/// bytes are: they are chance.
#[verifier::external_body]
fn random_bytes() -> (r: Option<Vec<u8>>)
    ensures
        r is Some ==> r->0@.len() == 16,
{
    let mut bytes = [0u8; 16];
    getrandom::getrandom(&mut bytes).ok().map(|_| bytes.to_vec())
}

/// `SystemTime::elapsed` since the start of 1970, in nanoseconds; 0 where the clock stands
/// before it. Nothing is said of the result: it is the time.
#[verifier::external_body]
fn clock_nanos() -> u128 {
    std::time::UNIX_EPOCH.elapsed().map(|gap| gap.as_nanos()).unwrap_or(0)
}

/// Sixteen bytes of a number, the lowest first.
pub open spec fn low_bytes(n: u128, count: nat) -> Seq<u8>
    decreases count,
{
    if count == 0 {
        Seq::empty()
    } else {
        seq![(n % 256) as u8] + low_bytes(n / 256, (count - 1) as nat)
    }
}

/// The sixteen bytes of a number, the lowest first.
pub fn bytes_of(n: u128) -> (r: Vec<u8>)
    ensures
        r@ == low_bytes(n, 16),
        r@.len() == 16,
{
    let mut out: Vec<u8> = Vec::new();
    let mut left: u128 = n;
    assert(out@ + low_bytes(left, 16) =~= low_bytes(n, 16));
    for i in 0..16
        invariant
            out@.len() == i,
            out@ + low_bytes(left, (16 - i) as nat) == low_bytes(n, 16),
    {
        let ghost before = out@;
        let ghost rest = low_bytes(left / 256, (15 - i) as nat);
        out.push((left % 256) as u8);
        assert(before + (seq![(left % 256) as u8] + rest) =~= before.push((left % 256) as u8)
            + rest);
        left = left / 256;
    }
    assert(out@ + low_bytes(left, 0) =~= out@);
    out
}

/// Bytes written as two hexadecimal digits each.
pub open spec fn hex(bytes: Seq<u8>) -> Seq<char>
    decreases bytes.len(),
{
    if bytes.len() == 0 {
        Seq::empty()
    } else {
        hex(bytes.drop_last()).push(hex_digit(bytes.last() as int / 16)).push(
            hex_digit(bytes.last() as int % 16),
        )
    }
}

/// Bytes as hexadecimal text.
pub fn hex_text(bytes: &[u8]) -> (r: String)
    ensures
        r@ == hex(bytes@),
        r@.len() == 2 * bytes@.len(),
        forall|i: int| 0 <= i < r@.len() ==> is_hex_digit(#[trigger] r@[i]),
{
    let mut out = String::new();
    assert(out@ =~= hex(bytes@.take(0)));
    for i in 0..bytes.len()
        invariant
            out@ == hex(bytes@.take(i as int)),
            out@.len() == 2 * i,
            forall|k: int| 0 <= k < out@.len() ==> is_hex_digit(#[trigger] out@[k]),
    {
        let b = bytes[i];
        assert(bytes@.take(i + 1).drop_last() =~= bytes@.take(i as int));
        assert(bytes@.take(i + 1).last() == b);
        out.push(hex_char(b / 16));
        out.push(hex_char(b % 16));
    }
    assert(bytes@.take(bytes@.len() as int) =~= bytes@);
    out
}

/// The bytes a token is made of: random ones, or the clock's where none are to be had.
pub fn token_from(random: Option<Vec<u8>>, nanos: u128) -> (r: String)
    ensures
        r@ == hex(
            match random {
                Some(bytes) => bytes@,
                None => low_bytes(nanos, 16),
            },
        ),
        (random is Some ==> random->0@.len() == 16) ==> r@.len() == 32,
        forall|i: int| 0 <= i < r@.len() ==> is_hex_digit(#[trigger] r@[i]),
{
    match random {
        Some(bytes) => hex_text(bytes.as_slice()),
        None => hex_text(bytes_of(nanos).as_slice()),
    }
}

/// Mint a random bearer token of 32 hexadecimal characters.
pub fn random_token() -> (r: String)
    ensures
        r@.len() == 32,
        forall|i: int| 0 <= i < r@.len() ==> is_hex_digit(#[trigger] r@[i]),
{
    match random_bytes() {
        Some(bytes) => token_from(Some(bytes), 0),
        None => token_from(None, clock_nanos()),
    }
}

/// Where the endpoint is reached.
pub fn endpoint_url(port: u16) -> (r: String)
    ensures
        r@ == "http://127.0.0.1:"@ + decimal(port as nat) + "/mcp"@,
{
    "http://127.0.0.1:".to_string().concat(decimal_text(port as u64).as_str()).concat("/mcp")
}

// ---------------------------------------------------------------------------
// Who is let in
// ---------------------------------------------------------------------------

/// How a request comes.
#[derive(Debug, Clone, Copy, PartialEq, Eq, Structural)]
pub enum Verb {
    Post,
    Delete,
    Other,
}

/// What becomes of a request before its body is read.
#[derive(Debug, PartialEq, Eq)]
pub enum Gate {
    /// Answer with this status and body.
    Answer(u16, &'static str),
    /// Read the body.
    Read,
}

/// Whether a request may come in: there is no token, or it presents the token.
pub open spec fn authorized(token: Option<Seq<char>>, presented: Option<Seq<char>>) -> bool {
    match token {
        None => true,
        Some(t) => presented is Some && trimmed(presented->0) == "Bearer "@ + t,
    }
}

/// The status and the body of the answer to a request whose body is not read.
pub open spec fn gate_answer(
    token: Option<Seq<char>>,
    presented: Option<Seq<char>>,
    verb: Verb,
) -> Option<(u16, Seq<char>)> {
    if !authorized(token, presented) {
        Some((401, "{\"error\":\"unauthorized\"}"@))
    } else {
        match verb {
            Verb::Post => None,
            Verb::Delete => Some((200, ""@)),
            Verb::Other => Some((405, ""@)),
        }
    }
}

/// Decide on a request by its `Authorization` header, if it has one, and how it comes.
pub fn gate(token: Option<&str>, presented: Option<&str>, verb: Verb) -> (r: Gate)
    ensures
        match r {
            Gate::Answer(status, body) => gate_answer(opt_str(token), opt_str(presented), verb)
                == Some((status, body@)),
            Gate::Read => gate_answer(opt_str(token), opt_str(presented), verb) is None,
        },
{
    if let Some(expected) = token {
        let wanted = "Bearer ".to_string().concat(expected);
        let matched = match presented {
            Some(value) => same_text(trim(value), wanted.as_str()),
            None => false,
        };
        if !matched {
            return Gate::Answer(401, "{\"error\":\"unauthorized\"}");
        }
    }
    match verb {
        Verb::Post => Gate::Read,
        Verb::Delete => Gate::Answer(200, ""),
        Verb::Other => Gate::Answer(405, ""),
    }
}

// ---------------------------------------------------------------------------
// What is answered
// ---------------------------------------------------------------------------

/// A reply with a result.
pub open spec fn result_envelope(id: Doc, value: Doc) -> Doc {
    object().with("jsonrpc"@, Doc::Text("2.0"@)).with("id"@, id).with("result"@, value)
}

/// A reply with an error.
pub open spec fn error_envelope(id: Doc, code: int, message: Seq<char>) -> Doc {
    object().with("jsonrpc"@, Doc::Text("2.0"@)).with("id"@, id).with(
        "error"@,
        object().with("code"@, Doc::Number(number_of(code as i64))).with(
            "message"@,
            Doc::Text(message),
        ),
    )
}

/// A document as it goes over the wire.
pub open spec fn sent(d: Doc) -> Seq<char> {
    json_written(stored(d))
}

fn rpc_result(id: Json, value: Json) -> (r: String)
    ensures
        r@ == sent(result_envelope(id@, value@)),
{
    write_json(
        &Json::empty().with("jsonrpc", Json::text("2.0")).with("id", id).with("result", value),
    )
}

pub fn rpc_error(id: Json, code: i64, message: &str) -> (r: String)
    ensures
        r@ == sent(error_envelope(id@, code as int, message@)),
{
    write_json(
        &Json::empty().with("jsonrpc", Json::text("2.0")).with("id", id).with(
            "error",
            Json::empty().with("code", Json::whole(code)).with("message", Json::text(message)),
        ),
    )
}

/// The handshake: the protocol the client asked for, and who this is.
pub open spec fn handshake(params: Doc) -> Doc {
    object().with(
        "protocolVersion"@,
        Doc::Text(
            match params.text_field("protocolVersion"@) {
                Some(version) => version,
                None => DEFAULT_PROTOCOL@,
            },
        ),
    ).with("capabilities"@, object().with("tools"@, object())).with(
        "serverInfo"@,
        object().with("name"@, Doc::Text("log-scouter"@)).with(
            "version"@,
            Doc::Text(CURRENT_VERSION@),
        ),
    )
}

pub fn initialize_result(params: &Json) -> (r: Json)
    ensures
        r@ == handshake(params@),
{
    let protocol = match params.get_str("protocolVersion") {
        Some(version) => version,
        None => DEFAULT_PROTOCOL,
    };
    Json::empty().with("protocolVersion", Json::text(protocol)).with(
        "capabilities",
        Json::empty().with("tools", Json::empty()),
    ).with(
        "serverInfo",
        Json::empty().with("name", Json::text("log-scouter")).with(
            "version",
            Json::text(CURRENT_VERSION),
        ),
    )
}

/// A tool as a client is told of it.
pub open spec fn listed_tool(tool: Tool) -> Doc {
    object().with("name"@, Doc::Text(tool.name)).with(
        "description"@,
        Doc::Text(tool.description),
    ).with("inputSchema"@, tool.parameters)
}

/// The tools on offer: exactly the assistant's.
pub open spec fn tool_listing() -> Doc {
    object().with("tools"@, Doc::List(all_tools().map_values(|t: Tool| listed_tool(t))))
}

pub fn tools_list_result() -> (r: Json)
    ensures
        r@ == tool_listing(),
{
    let tools = specs();
    let mut listed: Vec<Json> = Vec::new();
    for i in 0..tools.len()
        invariant
            listed.len() == i,
            forall|k: int| 0 <= k < i ==> (#[trigger] listed@[k])@ == listed_tool(tools@[k]@),
    {
        let tool = &tools[i];
        listed.push(
            Json::empty().with("name", Json::text(tool.name.as_str())).with(
                "description",
                Json::text(tool.description.as_str()),
            ).with("inputSchema", tool.parameters.clone()),
        );
    }
    assert(docs_of(listed@) =~= tool_views(tools@).map_values(|t: Tool| listed_tool(t)));
    Json::empty().with("tools", Json::list(listed))
}

/// What a tool said, and whether it failed.
pub open spec fn content(text: Seq<char>, is_error: bool) -> Doc {
    object().with(
        "content"@,
        Doc::List(
            seq![object().with("type"@, Doc::Text("text"@)).with("text"@, Doc::Text(text))],
        ),
    ).with("isError"@, Doc::Bool(is_error))
}

pub fn tool_content(text: &str, is_error: bool) -> (r: Json)
    ensures
        r@ == content(text@, is_error),
{
    let mut blocks: Vec<Json> = Vec::new();
    blocks.push(Json::empty().with("type", Json::text("text")).with("text", Json::text(text)));
    assert(docs_of(blocks@) =~= seq![
        object().with("type"@, Doc::Text("text"@)).with("text"@, Doc::Text(text@)),
    ]);
    Json::empty().with("content", Json::list(blocks)).with("isError", Json::Bool(is_error))
}

/// What is to be done about a posted message.
pub enum Step {
    /// Answer with this status and body.
    Answer { status: u16, body: String },
    /// Run a tool, and answer with what comes of it.
    Call { id: Json, tool: String, args: Json },
}

/// What a step says.
pub enum StepParts {
    Answer(u16, Seq<char>),
    Call(Doc, Seq<char>, Doc),
}

impl View for Step {
    type V = StepParts;

    open spec fn view(&self) -> StepParts {
        match self {
            Step::Answer { status, body } => StepParts::Answer(*status, body@),
            Step::Call { id, tool, args } => StepParts::Call(id@, tool@, args@),
        }
    }
}

/// A field, or an object without fields where there is none.
pub open spec fn field_or_empty(d: Doc, key: Seq<char>) -> Doc {
    match d.field(key) {
        Some(value) => value,
        None => object(),
    }
}

fn field_or_blank(j: &Json, key: &str) -> (r: Json)
    ensures
        r@ == field_or_empty(j@, key@),
{
    match j.get(key) {
        Some(value) => value.clone(),
        None => Json::empty(),
    }
}

/// The text of a field, or nothing.
pub open spec fn named(d: Doc, key: Seq<char>) -> Seq<char> {
    match d.text_field(key) {
        Some(t) => t,
        None => ""@,
    }
}

/// What is to be done about a tool call.
pub open spec fn call_step(id: Doc, params: Doc) -> StepParts {
    if named(params, "name"@) == ""@ {
        StepParts::Answer(200, sent(error_envelope(id, -32602, "tools/call needs a tool name"@)))
    } else {
        StepParts::Call(id, named(params, "name"@), field_or_empty(params, "arguments"@))
    }
}

/// What is to be done about a request with an id.
pub open spec fn request_step(id: Doc, method: Seq<char>, params: Doc) -> StepParts {
    if method == "initialize"@ {
        StepParts::Answer(200, sent(result_envelope(id, handshake(params))))
    } else if method == "tools/list"@ {
        StepParts::Answer(200, sent(result_envelope(id, tool_listing())))
    } else if method == "ping"@ {
        StepParts::Answer(200, sent(result_envelope(id, object())))
    } else if method == "tools/call"@ {
        call_step(id, params)
    } else {
        StepParts::Answer(200, sent(error_envelope(id, -32601, "unknown method: "@ + method)))
    }
}

/// What is to be done about a message, as far as it could be read: a notification, which has no
/// id, gets no envelope.
pub open spec fn message_step(read: Result<Doc, Seq<char>>) -> StepParts {
    match read {
        Err(_) => StepParts::Answer(400, sent(error_envelope(Doc::Null, -32700, "invalid JSON"@))),
        Ok(message) => match message.field("id"@) {
            None => StepParts::Answer(202, ""@),
            Some(id) => request_step(
                id,
                named(message, "method"@),
                field_or_empty(message, "params"@),
            ),
        },
    }
}

/// Decide on a message, as far as it could be read.
pub fn handle_message(read: Result<Json, String>) -> (r: Step)
    ensures
        r@ == message_step(reads(read)),
{
    let message = match read {
        Ok(message) => message,
        Err(_) => {
            return Step::Answer {
                status: 400,
                body: rpc_error(Json::Null, -32700, "invalid JSON"),
            };
        },
    };
    let id = match message.get("id") {
        Some(id) => id.clone(),
        None => {
            return Step::Answer { status: 202, body: "".to_string() };
        },
    };
    let method = match message.get_str("method") {
        Some(method) => method,
        None => "",
    };
    let params = field_or_blank(&message, "params");
    if same_text(method, "initialize") {
        Step::Answer { status: 200, body: rpc_result(id, initialize_result(&params)) }
    } else if same_text(method, "tools/list") {
        Step::Answer { status: 200, body: rpc_result(id, tools_list_result()) }
    } else if same_text(method, "ping") {
        Step::Answer { status: 200, body: rpc_result(id, Json::empty()) }
    } else if same_text(method, "tools/call") {
        let name = match params.get_str("name") {
            Some(name) => name,
            None => "",
        };
        if same_text(name, "") {
            Step::Answer {
                status: 200,
                body: rpc_error(id, -32602, "tools/call needs a tool name"),
            }
        } else {
            Step::Call { id, tool: name.to_string(), args: field_or_blank(&params, "arguments") }
        }
    } else {
        let complaint = "unknown method: ".to_string().concat(method);
        Step::Answer { status: 200, body: rpc_error(id, -32601, complaint.as_str()) }
    }
}

/// Decide on a posted body; `None` is one that could not be read as text.
pub fn handle_post(body: Option<&str>) -> (r: Step)
    ensures
        r@ == match body {
            Some(text) => message_step(json_read(text@)),
            None => StepParts::Answer(
                400,
                sent(error_envelope(Doc::Null, -32700, "could not read body"@)),
            ),
        },
{
    match body {
        Some(text) => handle_message(read_json(text)),
        None => Step::Answer {
            status: 400,
            body: rpc_error(Json::Null, -32700, "could not read body"),
        },
    }
}

/// What came of running a tool.
pub enum ToolOutcome {
    Done(String),
    Failed(String),
    /// The app is shutting down, and took no call.
    Gone,
    /// The app did not answer in time.
    Late,
}

/// What the reply to a tool call holds: a tool's failure is reported inside the result, so the
/// model sees it as a normal turn.
pub open spec fn outcome_content(outcome: ToolOutcome) -> Doc {
    match outcome {
        ToolOutcome::Done(text) => content(text@, false),
        ToolOutcome::Failed(message) => content(message@, true),
        ToolOutcome::Gone => content("the app is shutting down"@, true),
        ToolOutcome::Late => content("timed out waiting for the app"@, true),
    }
}

/// The body of the reply to a tool call.
pub fn answer_call(id: Json, outcome: &ToolOutcome) -> (r: String)
    ensures
        r@ == sent(result_envelope(id@, outcome_content(*outcome))),
{
    let value = match outcome {
        ToolOutcome::Done(text) => tool_content(text.as_str(), false),
        ToolOutcome::Failed(message) => tool_content(message.as_str(), true),
        ToolOutcome::Gone => tool_content("the app is shutting down", true),
        ToolOutcome::Late => tool_content("timed out waiting for the app", true),
    };
    rpc_result(id, value)
}

// ---------------------------------------------------------------------------
// Laws
// ---------------------------------------------------------------------------

/// With a token set, nothing is read of a request that does not present it.
pub proof fn strangers_are_kept_out(token: Seq<char>, presented: Option<Seq<char>>, verb: Verb)
    requires
        presented is None || trimmed(presented->0) != "Bearer "@ + token,
    ensures
        gate_answer(Some(token), presented, verb) is Some,
        (gate_answer(Some(token), presented, verb)->0).0 == 401,
{
}

/// A notification gets no envelope, whatever its method: nothing is run for it.
pub proof fn notifications_get_no_envelope(message: Doc)
    requires
        message.field("id"@) is None,
    ensures
        message_step(Ok(message)) == StepParts::Answer(202, ""@),
{
}

/// Only a tool call is handed out to be run, and it names a tool.
pub proof fn only_tool_calls_are_run(read: Result<Doc, Seq<char>>)
    requires
        message_step(read) is Call,
    ensures
        read is Ok,
        named(read->Ok_0, "method"@) == "tools/call"@,
        message_step(read)->Call_1 != ""@,
{
    reveal_strlit("");
}

/// With the token a request is read, whatever white space is around it; without one set, every
/// request is. Only a body that is posted is read.
pub proof fn the_token_lets_a_request_in(token: Seq<char>, presented: Seq<char>, verb: Verb)
    requires
        trimmed(presented) == "Bearer "@ + token,
    ensures
        gate_answer(Some(token), Some(presented), verb) is None <==> verb == Verb::Post,
        gate_answer(None, None, verb) is None <==> verb == Verb::Post,
        gate_answer(Some(token), Some(presented), verb) is Some ==> (gate_answer(
            Some(token),
            Some(presented),
            verb,
        )->0).0 != 401,
{
}

/// Each byte is two hexadecimal digits, the higher first, so that different bytes are written
/// differently.
pub proof fn bytes_are_written_two_digits_each(bytes: Seq<u8>, i: int)
    requires
        0 <= i < bytes.len(),
    ensures
        hex(bytes).len() == 2 * bytes.len(),
        hex_value(hex(bytes)[2 * i]) * 16 + hex_value(hex(bytes)[2 * i + 1]) == bytes[i],
    decreases bytes.len(),
{
    let head = bytes.drop_last();
    lemma_hex_len(bytes);
    lemma_hex_len(head);
    lemma_hex_value(bytes.last() as int / 16);
    lemma_hex_value(bytes.last() as int % 16);
    if i < head.len() {
        bytes_are_written_two_digits_each(head, i);
        assert(hex(bytes)[2 * i] == hex(head)[2 * i]);
        assert(hex(bytes)[2 * i + 1] == hex(head)[2 * i + 1]);
    }
}

/// What a hexadecimal digit stands for.
pub open spec fn hex_value(c: char) -> int {
    if '0' <= c && c <= '9' {
        c as int - '0' as int
    } else {
        c as int - 'a' as int + 10
    }
}

proof fn lemma_hex_value(d: int)
    requires
        0 <= d < 16,
    ensures
        hex_value(hex_digit(d)) == d,
{
}

proof fn lemma_hex_len(bytes: Seq<u8>)
    ensures
        hex(bytes).len() == 2 * bytes.len(),
    decreases bytes.len(),
{
    if bytes.len() > 0 {
        lemma_hex_len(bytes.drop_last());
    }
}

} // verus!
