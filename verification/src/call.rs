//! The row that every tool's adapter turns its records into.

use crate::laws;
use crate::text;
use crate::text::{chars_of, lower_case, same_text, string_of};
use vstd::prelude::*;

verus! {

/// How far a token count can be trusted.
#[derive(Clone, Copy, Debug, PartialEq, Eq, Structural)]
pub enum TokenQuality {
    /// The backend returned both counts.
    Exact,
    /// The counts were derived by some means.
    Estimated,
    /// There is no complete accounting by the backend.
    Unknown,
}

/// How far a timestamp can be trusted.
#[derive(Clone, Copy, Debug, PartialEq, Eq, Structural)]
pub enum TimestampQuality {
    /// The record carries the time of the call itself.
    Exact,
}

/// The service tier a call ran in.
#[derive(Clone, Copy, Debug, PartialEq, Eq, Structural)]
pub enum Speed {
    Standard,
}

/// How the tool was being used.
#[derive(Clone, Copy, Debug, PartialEq, Eq, Structural)]
pub enum InteractionMode {
    Agent,
}

/// The text of an optional string.
pub open spec fn optional_text(s: Option<String>) -> Option<Seq<char>> {
    match s {
        Some(s) => Some(s@),
        None => None,
    }
}

/// One model call.
#[derive(Clone, Debug)]
pub struct ParsedCall {
    pub tool: &'static str,
    pub model: String,
    pub input_tokens: u64,
    pub output_tokens: u64,
    /// What the call adds to a spend total, as decimal text.
    pub cost_usd: String,
    /// Seconds since the start of 1970, in UTC.
    pub timestamp: Option<i64>,
    pub speed: Speed,
    pub dedup_key: String,
    pub session_id: String,
    pub project: String,
    pub elapsed_ms: Option<u64>,
    pub interaction_mode: InteractionMode,
    pub token_quality: TokenQuality,
    pub timestamp_quality: TimestampQuality,
}

/// What a [`ParsedCall`] says.
pub ghost struct CallView {
    pub tool: Seq<char>,
    pub model: Seq<char>,
    pub input_tokens: u64,
    pub output_tokens: u64,
    pub cost_usd: Seq<char>,
    pub timestamp: Option<i64>,
    pub speed: Speed,
    pub dedup_key: Seq<char>,
    pub session_id: Seq<char>,
    pub project: Seq<char>,
    pub elapsed_ms: Option<u64>,
    pub interaction_mode: InteractionMode,
    pub token_quality: TokenQuality,
    pub timestamp_quality: TimestampQuality,
}

impl View for ParsedCall {
    type V = CallView;

    open spec fn view(&self) -> CallView {
        CallView {
            tool: self.tool@,
            model: self.model@,
            input_tokens: self.input_tokens,
            output_tokens: self.output_tokens,
            cost_usd: self.cost_usd@,
            timestamp: self.timestamp,
            speed: self.speed,
            dedup_key: self.dedup_key@,
            session_id: self.session_id@,
            project: self.project@,
            elapsed_ms: self.elapsed_ms,
            interaction_mode: self.interaction_mode,
            token_quality: self.token_quality,
            timestamp_quality: self.timestamp_quality,
        }
    }
}

impl Default for ParsedCall {
    /// A call of which nothing is known and that adds no money.
    fn default() -> (call: ParsedCall)
        ensures
            call@ == (CallView {
                tool: Seq::empty(),
                model: Seq::empty(),
                input_tokens: 0,
                output_tokens: 0,
                cost_usd: "0"@,
                timestamp: None,
                speed: Speed::Standard,
                dedup_key: Seq::empty(),
                session_id: Seq::empty(),
                project: Seq::empty(),
                elapsed_ms: None,
                interaction_mode: InteractionMode::Agent,
                token_quality: TokenQuality::Unknown,
                timestamp_quality: TimestampQuality::Exact,
            }),
    {
        proof {
            reveal_strlit("");
            assert(""@ == Seq::<char>::empty());
        }
        ParsedCall {
            tool: "",
            model: String::new(),
            input_tokens: 0,
            output_tokens: 0,
            cost_usd: "0".to_owned(),
            timestamp: None,
            speed: Speed::Standard,
            dedup_key: String::new(),
            session_id: String::new(),
            project: String::new(),
            elapsed_ms: None,
            interaction_mode: InteractionMode::Agent,
            token_quality: TokenQuality::Unknown,
            timestamp_quality: TimestampQuality::Exact,
        }
    }
}

/// The tools that calls can be filtered by.
#[derive(Clone, Copy, Debug, PartialEq, Eq, Structural)]
pub enum Tool {
    ClaudeCode,
    Cursor,
    Codex,
    Copilot,
    Gemini,
    Skylark,
}

/// The name of a tool: its words run together, each with a capital letter.
pub open spec fn name_of(tool: Tool) -> Seq<char> {
    match tool {
        Tool::ClaudeCode => "ClaudeCode"@,
        Tool::Cursor => "Cursor"@,
        Tool::Codex => "Codex"@,
        Tool::Copilot => "Copilot"@,
        Tool::Gemini => "Gemini"@,
        Tool::Skylark => "Skylark"@,
    }
}

fn tool_name(tool: Tool) -> (name: &'static str)
    ensures
        name@ == name_of(tool),
{
    match tool {
        Tool::ClaudeCode => "ClaudeCode",
        Tool::Cursor => "Cursor",
        Tool::Codex => "Codex",
        Tool::Copilot => "Copilot",
        Tool::Gemini => "Gemini",
        Tool::Skylark => "Skylark",
    }
}

/// Whether `c` is one of the letters A to Z.
pub open spec fn is_capital(c: char) -> bool {
    'A' <= c <= 'Z'
}

fn capital(c: char) -> (r: bool)
    ensures
        r == is_capital(c),
{
    'A' <= c && c <= 'Z'
}

/// The words of `name` in lower case, with a hyphen between each two.
pub open spec fn hyphenated(name: Seq<char>) -> Seq<char>
    decreases name.len(),
{
    if name.len() == 0 {
        Seq::empty()
    } else {
        let before = hyphenated(name.drop_last());
        let c = name.last();
        if name.len() > 1 && is_capital(c) {
            before.push('-').push(text::lower(c))
        } else {
            before.push(text::lower(c))
        }
    }
}

/// How many characters `s` has before its first capital letter.
pub open spec fn word_rest(s: Seq<char>) -> int
    decreases s.len(),
{
    if s.len() == 0 || is_capital(s[0]) {
        0
    } else {
        1 + word_rest(s.drop_first())
    }
}

/// The first word of `name`.
pub open spec fn first_word(name: Seq<char>) -> Seq<char> {
    if name.len() == 0 {
        name
    } else {
        name.take(1 + word_rest(name.drop_first()))
    }
}

/// The identifier that the calls of a tool carry: the words of its name, hyphenated.
pub open spec fn id_of(tool: Tool) -> Seq<char> {
    hyphenated(name_of(tool))
}

/// The short label of a tool in a report: the first word of its name.
pub open spec fn label_of(tool: Tool) -> Seq<char> {
    first_word(name_of(tool))
}

/// The identifier that the calls of a tool carry.
pub fn tool_id(tool: Tool) -> (id: String)
    ensures
        id@ == id_of(tool),
{
    let name = chars_of(tool_name(tool));
    let mut id = String::new();
    let mut i: usize = 0;
    assert(name@.take(0).len() == 0);
    while i < name.len()
        invariant
            i <= name@.len(),
            id@ == hyphenated(name@.take(i as int)),
        decreases name@.len() - i,
    {
        assert(name@.take(i + 1).drop_last() == name@.take(i as int));
        let c: char = name[i];
        if i > 0 && capital(c) {
            id.push('-');
        }
        id.push(lower_case(c));
        i += 1;
    }
    assert(name@.take(i as int) == name@);
    id
}

/// The short label of a tool in a report.
pub fn tool_label(tool: Tool) -> (label: String)
    ensures
        label@ == label_of(tool),
{
    let name = chars_of(tool_name(tool));
    if name.len() == 0 {
        return String::new();
    }
    let ghost rest = name@.drop_first();
    let mut n: usize = 1;
    assert(rest.skip(0) == rest);
    while n < name.len() && !capital(name[n])
        invariant
            1 <= n <= name@.len(),
            rest == name@.drop_first(),
            word_rest(rest) == n - 1 + word_rest(rest.skip(n - 1)),
        decreases name@.len() - n,
    {
        assert(rest.skip(n - 1)[0] == name@[n as int]);
        assert(rest.skip(n - 1).drop_first() == rest.skip(n as int));
        n += 1;
    }
    proof {
        if n < name@.len() {
            assert(rest.skip(n - 1)[0] == name@[n as int]);
        }
    }
    let word = vstd::slice::slice_subrange(name.as_slice(), 0, n);
    assert(word@ == name@.take(n as int));
    string_of(word)
}

/// Whether `call` was made through `tool`.
pub fn matches_tool(call: &ParsedCall, tool: Tool) -> (r: bool)
    ensures
        r == (call@.tool == id_of(tool)),
{
    same_text(call.tool, tool_id(tool).as_str())
}

/// The tool whose calls carry `id`.
pub open spec fn tool_with(id: Seq<char>) -> Option<Tool> {
    if id == id_of(Tool::ClaudeCode) {
        Some(Tool::ClaudeCode)
    } else if id == id_of(Tool::Cursor) {
        Some(Tool::Cursor)
    } else if id == id_of(Tool::Codex) {
        Some(Tool::Codex)
    } else if id == id_of(Tool::Copilot) {
        Some(Tool::Copilot)
    } else if id == id_of(Tool::Gemini) {
        Some(Tool::Gemini)
    } else if id == id_of(Tool::Skylark) {
        Some(Tool::Skylark)
    } else {
        None
    }
}

fn has_id(tool: Tool, id: &str) -> (r: bool)
    ensures
        r == (id@ == id_of(tool)),
{
    same_text(id, tool_id(tool).as_str())
}

/// The tool whose calls carry `id`.
pub fn find_tool(id: &str) -> (tool: Option<Tool>)
    ensures
        tool == tool_with(id@),
{
    if has_id(Tool::ClaudeCode, id) {
        Some(Tool::ClaudeCode)
    } else if has_id(Tool::Cursor, id) {
        Some(Tool::Cursor)
    } else if has_id(Tool::Codex, id) {
        Some(Tool::Codex)
    } else if has_id(Tool::Copilot, id) {
        Some(Tool::Copilot)
    } else if has_id(Tool::Gemini, id) {
        Some(Tool::Gemini)
    } else if has_id(Tool::Skylark, id) {
        Some(Tool::Skylark)
    } else {
        None
    }
}

/// The short label of the tool whose calls carry `id`; of an identifier that no tool has,
/// the label of the rest.
pub open spec fn short_label(id: Seq<char>) -> Seq<char> {
    match tool_with(id) {
        Some(tool) => label_of(tool),
        None => "Other"@,
    }
}

/// The short label of the tool whose calls carry `tool`.
pub fn tool_short_label(tool: &str) -> (label: String)
    ensures
        label@ == short_label(tool@),
        tool@ == laws::lowered("ClaudeCode"@.take(6)) + "-code"@ ==> label@
            == "ClaudeCode"@.take(6),
        tool@ == "cursor"@ ==> label@ == "Cursor"@,
        tool@ == "codex"@ ==> label@ == "Codex"@,
        tool@ == "copilot"@ ==> label@ == "Copilot"@,
        tool@ == "gemini"@ ==> label@ == "Gemini"@,
        tool@ == "skylark"@ ==> label@ == "Skylark"@,
{
    proof {
        laws::law_tool_names();
        laws::law_tools_are_found_by_their_identifiers(Tool::ClaudeCode);
        laws::law_tools_are_found_by_their_identifiers(Tool::Cursor);
        laws::law_tools_are_found_by_their_identifiers(Tool::Codex);
        laws::law_tools_are_found_by_their_identifiers(Tool::Copilot);
        laws::law_tools_are_found_by_their_identifiers(Tool::Gemini);
        laws::law_tools_are_found_by_their_identifiers(Tool::Skylark);
    }
    match find_tool(tool) {
        Some(known) => tool_label(known),
        None => "Other".to_owned(),
    }
}

} // verus!
