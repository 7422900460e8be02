//! What the tools answer.
use crate::actions::DiagnosticWithFixes;
use crate::text::texts;
use vstd::prelude::*;

verus! {

/// What is known of a symbol.
#[derive(Clone, Debug)]
pub struct SymbolReport {
    pub symbol: String,
    pub kind: String,
    pub file_path: String,
    pub start_line: u32,
    pub end_line: u32,
    pub documentation: String,
    pub definition_code: String,
}

/// A renaming: done, or kept as an action that can be executed later.
#[derive(Clone, Debug)]
pub struct RenameReport {
    /// Whether the renaming is done or can be looked at.
    pub status: String,
    /// The action under which the renaming is kept, if it is not done yet.
    pub action_id: Option<String>,
    pub symbol_name: String,
    pub new_name: String,
    pub changes_count: usize,
    pub files_affected: Vec<String>,
    pub message: String,
}

/// The number of code actions after a refresh, of one project or of all.
#[derive(Clone, Debug)]
pub struct RefreshReport {
    pub status: String,
    pub project: Option<String>,
    pub action_count: usize,
    pub message: String,
}

/// A code action as it is listed.
#[derive(Clone, Debug)]
pub struct ActionSummary {
    pub id: String,
    pub title: String,
    pub description: String,
    pub kind: Option<String>,
    pub project_name: String,
}

/// A part of an answer.
#[derive(Clone, Debug)]
pub enum Content {
    Text(String),
    Symbol(SymbolReport),
    Rename(RenameReport),
    Refresh(RefreshReport),
    Diagnostics(Vec<DiagnosticWithFixes>),
    Actions(Vec<ActionSummary>),
}

/// The answer of a tool.
#[derive(Clone, Debug)]
pub struct ToolResult {
    pub content: Vec<Content>,
    pub is_error: bool,
}

/// The kinds of failure of a tool.
#[derive(Clone, Copy, PartialEq, Eq, Structural, Debug)]
pub enum ErrorKind {
    InvalidParams,
    Internal,
}

/// The failure of a tool.
#[derive(Clone, Debug)]
pub struct ToolError {
    pub kind: ErrorKind,
    pub message: String,
}

/// What a tool gives back, and what is to be done with it.
#[derive(Debug)]
pub struct Outcome {
    pub reply: Result<ToolResult, ToolError>,
    /// Whether the answer is to be sent to those who watch the project.
    pub notify: bool,
    /// Whether the code actions of the project are to be updated then.
    pub refresh: bool,
}

/// The answer is one text, of a failure or of a success.
pub open spec fn is_text(result: ToolResult, is_error: bool, text: Seq<char>) -> bool {
    &&& result.is_error == is_error
    &&& result.content@.len() == 1
    &&& result.content@[0] matches Content::Text(own) && own@ == text
}

/// The answer is a success of some texts.
pub open spec fn is_texts(result: ToolResult, lines: Seq<Seq<char>>) -> bool {
    &&& !result.is_error
    &&& result.content@.len() == lines.len()
    &&& forall|i: int|
        0 <= i < lines.len() ==> (#[trigger] result.content@[i] matches Content::Text(own) && own@
            == lines[i])
}

/// The answer is a success of one part.
pub open spec fn is_part(result: ToolResult, part: Content) -> bool {
    &&& !result.is_error
    &&& result.content@ == seq![part]
}

/// The failure has the kind and the message.
pub open spec fn is_failure(error: ToolError, kind: ErrorKind, message: Seq<char>) -> bool {
    error.kind == kind && error.message@ == message
}

/// The outcome is an error text that nobody else is told of.
pub open spec fn is_refusal(outcome: Outcome, text: Seq<char>) -> bool {
    &&& outcome.reply matches Ok(result) && is_text(result, true, text)
    &&& !outcome.notify
    &&& !outcome.refresh
}

/// The outcome is a failure inside the server.
pub open spec fn is_breakdown(outcome: Outcome, message: Seq<char>) -> bool {
    &&& outcome.reply matches Err(error) && is_failure(error, ErrorKind::Internal, message)
    &&& !outcome.notify
    &&& !outcome.refresh
}

/// An answer of one text.
pub fn text_response(text: String, is_error: bool) -> (res: ToolResult)
    ensures
        is_text(res, is_error, text@),
{
    let mut content: Vec<Content> = Vec::new();
    content.push(Content::Text(text));
    ToolResult { content, is_error }
}

/// An answer that tells of an error.
pub fn error_response(message: &str) -> (res: ToolResult)
    ensures
        is_text(res, true, message@),
{
    text_response(message.to_owned(), true)
}

/// An answer of some texts.
pub fn texts_response(lines: Vec<String>) -> (res: ToolResult)
    ensures
        is_texts(res, texts(lines@)),
{
    let mut content: Vec<Content> = Vec::new();
    let mut i: usize = 0;
    while i < lines.len()
        invariant
            i <= lines@.len(),
            content@.len() == i,
            forall|k: int|
                0 <= k < i ==> (#[trigger] content@[k] matches Content::Text(own) && own@
                    == lines@[k]@),
        decreases lines@.len() - i,
    {
        content.push(Content::Text(lines[i].clone()));
        i += 1;
    }
    ToolResult { content, is_error: false }
}

/// An answer of one part.
pub fn part_response(part: Content) -> (res: ToolResult)
    ensures
        is_part(res, part),
{
    let mut content: Vec<Content> = Vec::new();
    content.push(part);
    ToolResult { content, is_error: false }
}

/// A failure inside the server.
pub fn internal_error(message: String) -> (res: ToolError)
    ensures
        is_failure(res, ErrorKind::Internal, message@),
{
    ToolError { kind: ErrorKind::Internal, message }
}

/// A failure for what was asked.
pub fn invalid_params(message: String) -> (res: ToolError)
    ensures
        is_failure(res, ErrorKind::InvalidParams, message@),
{
    ToolError { kind: ErrorKind::InvalidParams, message }
}

/// The outcome of a tool that answers with an error text.
pub fn refuse(message: String) -> (res: Outcome)
    ensures
        is_refusal(res, message@),
{
    Outcome { reply: Ok(text_response(message, true)), notify: false, refresh: false }
}

/// The outcome of a tool that fails inside the server.
pub fn break_down(message: String) -> (res: Outcome)
    ensures
        is_breakdown(res, message@),
{
    Outcome { reply: Err(internal_error(message)), notify: false, refresh: false }
}

/// An answer of one text holds that text and nothing else, and says whether it is an error; an
/// answer of some texts holds each of them in its place; an answer of one part holds that part.
pub proof fn law_answers_hold_what_they_say(
    result: ToolResult,
    is_error: bool,
    text: Seq<char>,
    lines: Seq<Seq<char>>,
    part: Content,
)
    ensures
        is_text(result, is_error, text) ==> result.is_error == is_error && result.content@.len()
            == 1 && (result.content@[0] matches Content::Text(own) && own@ == text),
        is_texts(result, lines) ==> !result.is_error && result.content@.len() == lines.len()
            && forall|i: int|
            0 <= i < lines.len() ==> (#[trigger] result.content@[i] matches Content::Text(own)
                && own@ == lines[i]),
        is_part(result, part) ==> !result.is_error && result.content@.len() == 1
            && result.content@[0] == part,
{
}

/// A refusal is an error text, a breakdown a failure inside the server; neither is sent to those who
/// watch the project, and neither has its code actions updated.
pub proof fn law_refusals_are_told_to_the_caller_alone(outcome: Outcome, text: Seq<char>)
    requires
        is_refusal(outcome, text) || is_breakdown(outcome, text),
    ensures
        !outcome.notify,
        !outcome.refresh,
        is_refusal(outcome, text) ==> (outcome.reply matches Ok(result) && result.is_error
            && result.content@.len() == 1 && (result.content@[0] matches Content::Text(own) && own@
            == text)),
        is_breakdown(outcome, text) ==> (outcome.reply matches Err(error) && error.kind
            == ErrorKind::Internal && error.message@ == text),
{
}

}
