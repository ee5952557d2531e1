//! The provider-neutral conversation model.

use crate::json::{Doc, Json};
use vstd::prelude::*;

verus! {

#[derive(Debug, Clone, Copy, PartialEq, Eq, Structural)]
pub enum Role {
    System,
    User,
    Assistant,
    /// A turn carrying the results of tool calls back to the model.
    Tool,
}

/// The model asking to run one tool.
#[derive(Debug, PartialEq, Eq)]
pub struct ToolCall {
    /// Assigned by the provider, and echoed back with the result so the two can be paired.
    pub id: String,
    pub name: String,
    pub arguments: Json,
}

/// What a tool call says.
#[verifier::ext_equal]
pub struct Call {
    pub id: Seq<char>,
    pub name: Seq<char>,
    pub arguments: Doc,
}

impl View for ToolCall {
    type V = Call;

    open spec fn view(&self) -> Call {
        Call { id: self.id@, name: self.name@, arguments: self.arguments@ }
    }
}

pub open spec fn call_views(v: Seq<ToolCall>) -> Seq<Call> {
    v.map_values(|c: ToolCall| c@)
}

/// What a tool produced, on its way back to the model.
#[derive(Debug, PartialEq, Eq)]
pub struct ToolResult {
    pub id: String,
    pub name: String,
    pub content: String,
}

/// What a tool's result says.
#[verifier::ext_equal]
pub struct Outcome {
    pub id: Seq<char>,
    pub name: Seq<char>,
    pub content: Seq<char>,
}

impl View for ToolResult {
    type V = Outcome;

    open spec fn view(&self) -> Outcome {
        Outcome { id: self.id@, name: self.name@, content: self.content@ }
    }
}

pub open spec fn outcome_views(v: Seq<ToolResult>) -> Seq<Outcome> {
    v.map_values(|r: ToolResult| r@)
}

/// One turn of the conversation.
#[derive(Debug, PartialEq, Eq)]
pub struct ChatMsg {
    pub role: Role,
    pub text: String,
    /// Present on an assistant turn that asked for tools.
    pub tool_calls: Vec<ToolCall>,
    /// Present on a `Tool` turn feeding results back.
    pub tool_results: Vec<ToolResult>,
}

/// What a turn says.
#[verifier::ext_equal]
pub struct Turn {
    pub role: Role,
    pub text: Seq<char>,
    pub calls: Seq<Call>,
    pub outcomes: Seq<Outcome>,
}

impl View for ChatMsg {
    type V = Turn;

    open spec fn view(&self) -> Turn {
        Turn {
            role: self.role,
            text: self.text@,
            calls: call_views(self.tool_calls@),
            outcomes: outcome_views(self.tool_results@),
        }
    }
}

pub open spec fn turns(v: Seq<ChatMsg>) -> Seq<Turn> {
    v.map_values(|m: ChatMsg| m@)
}

/// A turn of text alone.
pub open spec fn plain_turn(role: Role, text: Seq<char>) -> Turn {
    Turn { role, text, calls: Seq::empty(), outcomes: Seq::empty() }
}

impl ChatMsg {
    pub fn system(text: &str) -> (r: Self)
        ensures
            r@ == plain_turn(Role::System, text@),
    {
        ChatMsg::plain(Role::System, text)
    }

    pub fn user(text: &str) -> (r: Self)
        ensures
            r@ == plain_turn(Role::User, text@),
    {
        ChatMsg::plain(Role::User, text)
    }

    fn plain(role: Role, text: &str) -> (r: Self)
        ensures
            r@ == plain_turn(role, text@),
    {
        let r = ChatMsg {
            role,
            text: text.to_string(),
            tool_calls: Vec::new(),
            tool_results: Vec::new(),
        };
        assert(r@ =~= plain_turn(role, text@));
        r
    }

    pub fn assistant(text: &str, tool_calls: Vec<ToolCall>) -> (r: Self)
        ensures
            r@ == (Turn {
                role: Role::Assistant,
                text: text@,
                calls: call_views(tool_calls@),
                outcomes: Seq::empty(),
            }),
    {
        let ghost calls = call_views(tool_calls@);
        let r = ChatMsg {
            role: Role::Assistant,
            text: text.to_string(),
            tool_calls,
            tool_results: Vec::new(),
        };
        assert(r@.outcomes =~= Seq::empty());
        r
    }

    pub fn tool_results(results: Vec<ToolResult>) -> (r: Self)
        ensures
            r@ == (Turn {
                role: Role::Tool,
                text: Seq::empty(),
                calls: Seq::empty(),
                outcomes: outcome_views(results@),
            }),
    {
        let r = ChatMsg {
            role: Role::Tool,
            text: String::new(),
            tool_calls: Vec::new(),
            tool_results: results,
        };
        assert(r@.calls =~= Seq::empty());
        assert(r@.text =~= Seq::empty());
        r
    }
}

/// What a completion returns: the assistant's text, and any tools it wants run.
#[derive(Debug, PartialEq, Eq)]
pub struct Assistant {
    pub text: String,
    pub tool_calls: Vec<ToolCall>,
}

/// What a completion says.
#[verifier::ext_equal]
pub struct Reply {
    pub text: Seq<char>,
    pub calls: Seq<Call>,
}

impl View for Assistant {
    type V = Reply;

    open spec fn view(&self) -> Reply {
        Reply { text: self.text@, calls: call_views(self.tool_calls@) }
    }
}

impl Assistant {
    pub fn wants_tools(&self) -> (r: bool)
        ensures
            r == (self@.calls.len() > 0),
    {
        self.tool_calls.len() > 0
    }
}

/// A callable the model is told about: name, human description, and a JSON-schema object
/// describing its arguments.
#[derive(Debug, PartialEq, Eq)]
pub struct ToolSpec {
    pub name: String,
    pub description: String,
    pub parameters: Json,
}

/// What a tool's description says.
#[verifier::ext_equal]
pub struct Tool {
    pub name: Seq<char>,
    pub description: Seq<char>,
    pub parameters: Doc,
}

impl View for ToolSpec {
    type V = Tool;

    open spec fn view(&self) -> Tool {
        Tool { name: self.name@, description: self.description@, parameters: self.parameters@ }
    }
}

pub open spec fn tool_views(v: Seq<ToolSpec>) -> Seq<Tool> {
    v.map_values(|t: ToolSpec| t@)
}

} // verus!
