//! The tools: what they ask of the language server and of the compiler, and what they answer.
use crate::actions::{DiagnosticView, DiagnosticWithFixes, Fix, FixView, fix_views};
use crate::edits::{Position, Range};
use crate::locate::{excerpt, get_file_lines};
use crate::paths::{
    file_path_of, joined_path, opt_str, opt_text, path_join, uri_to_path,
};
use crate::reply::{
    break_down, internal_error, is_breakdown, is_failure, is_refusal, is_text, is_texts,
    part_response, refuse, text_response, texts_response, Content, ErrorKind, Outcome,
    RenameReport, SymbolReport, ToolError,
};
use crate::symbols::{
    kind_name, kind_name_of, law_one_search_has_one_result, law_resolved_symbol_is_listed,
    listed_symbols, resolution,
    resolve_symbol_in_project, SymbolInformation, WorkspaceSymbolResponse,
};
use crate::text::{decimal, digits_of, join, joined, occurs, texts};
use crate::workspace::{changed_files, WorkspaceEdit, WorkspaceEditView};
use vstd::prelude::*;

verus! {

/// The flag is there, and it is true.
pub open spec fn is_true(flag: Option<bool>) -> bool {
    flag == Some(true)
}

/// Whether a flag of a request is set. A flag that the request leaves out is not.
pub fn is_set(flag: Option<bool>) -> (res: bool)
    ensures
        res == is_true(flag),
{
    match flag {
        Some(flag) => flag,
        None => false,
    }
}

/// A symbol that was found, with the path of its file, or the answer where there is none.
#[derive(Debug)]
pub enum Located {
    At { symbol: SymbolInformation, path: String },
    Answer(Outcome),
}

/// What a search for a symbol comes to.
pub open spec fn search_result(
    reply: Result<Option<WorkspaceSymbolResponse>, String>,
    name: Seq<char>,
    hint: Option<Seq<char>>,
    found: Result<SymbolInformation, String>,
) -> bool {
    match reply {
        Err(e) => found matches Err(message) && message@
            == "LSP error while searching for symbol: "@ + e@,
        Ok(listed) => resolution(listed_symbols(listed), name, hint, found),
    }
}

/// Where a symbol is, by what a search for it came to: the symbol and the path of its file, the
/// reason where it is not found, or nothing where its URI names no file.
pub open spec fn place_found(
    found: Result<SymbolInformation, String>,
    place: Result<Option<(SymbolInformation, String)>, String>,
) -> bool {
    match found {
        Err(e) => place matches Err(reason) && reason@ == e@,
        Ok(info) => match file_path_of(info.uri@) {
            Some(p) => place matches Ok(Some((symbol, path))) && symbol == info && path@ == p,
            None => place == Ok::<Option<(SymbolInformation, String)>, String>(None),
        },
    }
}

fn find_symbol(
    reply: Result<Option<WorkspaceSymbolResponse>, String>,
    symbol_name: &str,
    file_hint: Option<&str>,
) -> (res: Result<Option<(SymbolInformation, String)>, String>)
    ensures
        exists|found: Result<SymbolInformation, String>| #[trigger]
            search_result(reply, symbol_name@, opt_str(file_hint), found) && place_found(found, res),
{
    let found = resolve_symbol_in_project(reply, symbol_name, file_hint);
    assert(search_result(reply, symbol_name@, opt_str(file_hint), found));
    let ghost result = found;
    let res = match found {
        Err(e) => Err(e),
        Ok(symbol) => match uri_to_path(symbol.uri.as_str()) {
            Some(path) => Ok(Some((symbol, path))),
            None => Ok(None),
        },
    };
    assert(place_found(result, res));
    res
}

/// Where a symbol is that a tool asks about, or what the tool answers.
pub open spec fn locates(
    reply: Result<Option<WorkspaceSymbolResponse>, String>,
    name: Seq<char>,
    hint: Option<Seq<char>>,
    located: Located,
) -> bool {
    exists|found: Result<SymbolInformation, String>| #[trigger]
        search_result(reply, name, hint, found) && match found {
            Err(e) => located matches Located::Answer(outcome) && is_refusal(outcome, e@),
            Ok(info) => match file_path_of(info.uri@) {
                Some(p) => located matches Located::At { symbol, path } && symbol == info && path@
                    == p,
                None => located matches Located::Answer(outcome) && is_breakdown(
                    outcome,
                    "Invalid file path in symbol location"@,
                ),
            },
        }
}

/// Where a symbol is that is to be renamed, or what the tool answers.
pub open spec fn locates_to_rename(
    reply: Result<Option<WorkspaceSymbolResponse>, String>,
    name: Seq<char>,
    hint: Option<Seq<char>>,
    located: Located,
) -> bool {
    exists|found: Result<SymbolInformation, String>| #[trigger]
        search_result(reply, name, hint, found) && match found {
            Err(e) => located matches Located::Answer(outcome) && is_refusal(
                outcome,
                "Failed to locate symbol '"@ + name + "': "@ + e@,
            ),
            Ok(info) => match file_path_of(info.uri@) {
                Some(p) => located matches Located::At { symbol, path } && symbol == info && path@
                    == p,
                None => located matches Located::Answer(outcome) && is_refusal(
                    outcome,
                    "Invalid file path for symbol '"@ + name + "'"@,
                ),
            },
        }
}

/// Where a symbol is that a tool asks about. Where it is not found, or its URI names no file, the
/// tool answers at once.
pub fn locate_symbol(
    reply: Result<Option<WorkspaceSymbolResponse>, String>,
    symbol_name: &str,
    file_hint: Option<&str>,
) -> (res: Located)
    ensures
        locates(reply, symbol_name@, opt_str(file_hint), res),
{
    match find_symbol(reply, symbol_name, file_hint) {
        Err(e) => Located::Answer(refuse(e)),
        Ok(Some((symbol, path))) => Located::At { symbol, path },
        Ok(None) => Located::Answer(break_down("Invalid file path in symbol location".to_owned())),
    }
}

/// Where a symbol is that is to be renamed. Where it is not found, or its URI names no file, the
/// tool answers at once.
pub fn locate_symbol_to_rename(
    reply: Result<Option<WorkspaceSymbolResponse>, String>,
    symbol_name: &str,
    file_hint: Option<&str>,
) -> (res: Located)
    ensures
        locates_to_rename(reply, symbol_name@, opt_str(file_hint), res),
{
    match find_symbol(reply, symbol_name, file_hint) {
        Err(e) => Located::Answer(
            refuse(
                "Failed to locate symbol '".to_owned().concat(symbol_name).concat("': ").concat(
                    e.as_str(),
                ),
            ),
        ),
        Ok(Some((symbol, path))) => Located::At { symbol, path },
        Ok(None) => Located::Answer(
            refuse("Invalid file path for symbol '".to_owned().concat(symbol_name).concat("'")),
        ),
    }
}

/// The documentation that a language server shows for a symbol, each part as text.
#[derive(Clone, Debug)]
pub enum HoverContents {
    Scalar(String),
    Array(Vec<String>),
    Markup(String),
}

/// The documentation of a symbol.
pub open spec fn documentation_of(hover: Option<HoverContents>) -> Seq<char> {
    match hover {
        None => "No documentation found."@,
        Some(HoverContents::Scalar(text)) => text@,
        Some(HoverContents::Array(parts)) => joined(texts(parts@), "\n\n---\n\n"@),
        Some(HoverContents::Markup(text)) => text@,
    }
}

/// The lines of a file around a range, if it could be read and has them.
pub open spec fn lines_around(
    content: Option<String>,
    range: Range,
    prefix: u8,
    suffix: u8,
) -> Option<Seq<char>> {
    match content {
        Some(content) => excerpt(content@, range.start.line, range.end.line, prefix, suffix),
        None => None,
    }
}

fn read_lines(content: &Option<String>, range: Range, prefix: u8, suffix: u8) -> (res: Option<
    String,
>)
    ensures
        opt_text(res) == lines_around(*content, range, prefix, suffix),
{
    match content {
        Some(content) => get_file_lines(
            content.as_str(),
            range.start.line,
            range.end.line,
            prefix,
            suffix,
        ),
        None => None,
    }
}

/// The answer tells what is known of a symbol.
pub open spec fn describes_symbol(
    symbol: SymbolInformation,
    path: Seq<char>,
    hover: Option<HoverContents>,
    content: Option<String>,
    outcome: Outcome,
) -> bool {
    &&& outcome.notify
    &&& outcome.refresh
    &&& outcome.reply matches Ok(result) && !result.is_error && result.content@.len() == 1 && {
        &&& result.content@[0] matches Content::Symbol(report)
        &&& report.symbol@ == symbol.name@
        &&& report.kind@ == kind_name_of(symbol.kind)
        &&& report.file_path@ == path
        &&& report.start_line == symbol.range.start.line
        &&& report.end_line == symbol.range.end.line
        &&& report.documentation@ == documentation_of(hover)
        &&& report.definition_code@ == match lines_around(content, symbol.range, 2, 5) {
            Some(lines) => lines,
            None => "Could not read source file."@,
        }
    }
}

/// Answers what is known of a symbol: where it is defined, the code there, and its documentation.
/// `content` is the content of its file, if it can be read.
pub fn get_symbol_info(
    symbol: &SymbolInformation,
    path: &str,
    hover: &Option<HoverContents>,
    content: &Option<String>,
) -> (res: Outcome)
    ensures
        describes_symbol(*symbol, path@, *hover, *content, res),
{
    let documentation = match hover {
        None => "No documentation found.".to_owned(),
        Some(HoverContents::Scalar(text)) => text.clone(),
        Some(HoverContents::Array(parts)) => join(parts, "\n\n---\n\n"),
        Some(HoverContents::Markup(text)) => text.clone(),
    };
    let definition_code = match read_lines(content, symbol.range, 2, 5) {
        Some(lines) => lines,
        None => "Could not read source file.".to_owned(),
    };
    let report = SymbolReport {
        symbol: symbol.name.clone(),
        kind: kind_name(symbol.kind),
        file_path: path.to_owned(),
        start_line: symbol.range.start.line,
        end_line: symbol.range.end.line,
        documentation,
        definition_code,
    };
    Outcome { reply: Ok(part_response(Content::Symbol(report))), notify: true, refresh: true }
}

/// A place at which a symbol is used, with the content of the file there, if it can be read.
#[derive(Clone, Debug)]
pub struct Usage {
    pub uri: String,
    pub range: Range,
    pub content: Option<String>,
}

/// How a usage is shown, if its URI names a file that has the lines.
pub open spec fn usage_text(usage: Usage) -> Option<Seq<char>> {
    match (file_path_of(usage.uri@), lines_around(usage.content, usage.range, 3, 3)) {
        (Some(path), Some(lines)) => Some(
            "### "@ + path + "\n(Line: "@ + digits_of((usage.range.start.line + 1) as nat)
                + ")\n```rust\n"@ + lines + "\n```"@,
        ),
        _ => None,
    }
}

/// How the usages are shown.
pub open spec fn usage_texts(usages: Seq<Usage>) -> Seq<Seq<char>>
    decreases usages.len(),
{
    if usages.len() == 0 {
        Seq::empty()
    } else {
        let rest = usage_texts(usages.drop_last());
        match usage_text(usages.last()) {
            Some(text) => rest.push(text),
            None => rest,
        }
    }
}

fn show_usages(usages: &Vec<Usage>) -> (res: Vec<String>)
    ensures
        texts(res@) == usage_texts(usages@),
{
    let mut out: Vec<String> = Vec::new();
    let mut i: usize = 0;
    assert(texts(out@) =~= usage_texts(usages@.take(0)));
    while i < usages.len()
        invariant
            i <= usages@.len(),
            texts(out@) == usage_texts(usages@.take(i as int)),
        decreases usages@.len() - i,
    {
        assert(usages@.take(i + 1).drop_last() =~= usages@.take(i as int));
        let usage = &usages[i];
        let ghost before = texts(out@);
        if let Some(path) = uri_to_path(usage.uri.as_str()) {
            if let Some(lines) = read_lines(&usage.content, usage.range, 3, 3) {
                let number: u64 = usage.range.start.line as u64 + 1;
                let text = "### ".to_owned().concat(path.as_str()).concat("\n(Line: ").concat(
                    decimal(number).as_str(),
                ).concat(")\n```rust\n").concat(lines.as_str()).concat("\n```");
                out.push(text);
                assert(texts(out@) =~= before.push(text@));
            }
        }
        i += 1;
    }
    assert(usages@.take(i as int) =~= usages@);
    out
}

/// The answer shows where a symbol is used.
pub open spec fn shows_usages(
    references: Result<Option<Vec<Usage>>, String>,
    outcome: Outcome,
) -> bool {
    match references {
        Err(e) => is_breakdown(outcome, e@),
        Ok(found) => {
            let shown = match found {
                Some(usages) => usage_texts(usages@),
                None => Seq::empty(),
            };
            &&& outcome.notify
            &&& !outcome.refresh
            &&& outcome.reply matches Ok(result) && if shown.len() == 0 {
                is_text(result, false, "No usages found."@)
            } else {
                is_texts(result, shown)
            }
        },
    }
}

/// Answers where a symbol is used, by what the language server found.
pub fn find_symbol_usages(references: Result<Option<Vec<Usage>>, String>) -> (res: Outcome)
    ensures
        shows_usages(references, res),
{
    let found = match references {
        Err(e) => return break_down(e),
        Ok(found) => found,
    };
    let messages = match &found {
        Some(usages) => show_usages(usages),
        None => Vec::new(),
    };
    assert(texts(messages@).len() == messages@.len());
    let result = if messages.len() == 0 {
        text_response("No usages found.".to_owned(), false)
    } else {
        texts_response(messages)
    };
    Outcome { reply: Ok(result), notify: true, refresh: false }
}

/// A place that a message of the compiler is about. Lines and columns count from one.
#[derive(Clone, Debug)]
pub struct Span {
    pub file_name: String,
    pub is_primary: bool,
    pub line_start: usize,
    pub line_end: usize,
    pub column_start: usize,
    pub column_end: usize,
}

/// A message of the compiler.
#[derive(Clone, Debug)]
pub struct CompilerMessage {
    pub level: String,
    pub rendered: String,
    pub spans: Vec<Span>,
}

/// `i` is the first of the spans that is primary.
pub open spec fn is_primary_span(spans: Seq<Span>, i: int) -> bool {
    &&& 0 <= i < spans.len()
    &&& spans[i].is_primary
    &&& forall|j: int| 0 <= j < i ==> !(#[trigger] spans[j]).is_primary
}

/// The place that a message is mainly about, if it has one.
pub open spec fn primary_span(message: CompilerMessage) -> Option<Span> {
    if exists|i: int| is_primary_span(message.spans@, i) {
        Some(message.spans@[choose|i: int| is_primary_span(message.spans@, i)])
    } else {
        None
    }
}

/// The messages that have a place, with it.
pub open spec fn placed(messages: Seq<CompilerMessage>) -> Seq<(CompilerMessage, Span)>
    decreases messages.len(),
{
    if messages.len() == 0 {
        Seq::empty()
    } else {
        let rest = placed(messages.drop_last());
        match primary_span(messages.last()) {
            Some(span) => rest.push((messages.last(), span)),
            None => rest,
        }
    }
}

/// The index of the primary span of a message.
pub fn find_primary_span(message: &CompilerMessage) -> (res: Option<usize>)
    ensures
        match res {
            Some(i) => i < message.spans@.len() && primary_span(*message) == Some(
                message.spans@[i as int],
            ),
            None => primary_span(*message) is None,
        },
{
    let mut i: usize = 0;
    while i < message.spans.len()
        invariant
            i <= message.spans@.len(),
            forall|j: int| 0 <= j < i ==> !(#[trigger] message.spans@[j]).is_primary,
        decreases message.spans@.len() - i,
    {
        if message.spans[i].is_primary {
            proof {
                assert(is_primary_span(message.spans@, i as int));
                let k = choose|k: int| is_primary_span(message.spans@, k);
                assert(is_primary_span(message.spans@, k));
                assert(k == i);
            }
            return Some(i);
        }
        i += 1;
    }
    assert forall|k: int| !is_primary_span(message.spans@, k) by {}
    None
}

/// The number below, counted from zero, in the width of a position.
pub open spec fn from_zero(n: usize) -> u32 {
    if n == 0 {
        0u32
    } else {
        #[verifier::truncate]
        ((n - 1) as u32)
    }
}

/// The range of a span, counted from zero.
pub open spec fn span_range(span: Span) -> Range {
    Range {
        start: Position { line: from_zero(span.line_start), character: from_zero(span.column_start) },
        end: Position { line: from_zero(span.line_end), character: from_zero(span.column_end) },
    }
}

fn count_from_zero(n: usize) -> (res: u32)
    ensures
        res == from_zero(n),
{
    if n == 0 {
        0
    } else {
        #[verifier::truncate]
        ((n - 1) as u32)
    }
}

/// A place for which the language server is asked for repairs.
#[derive(Clone, Debug)]
pub struct FixQuery {
    pub path: String,
    pub range: Range,
}

/// The queries are for the places of the messages that have one.
pub open spec fn are_queries(
    root: Seq<char>,
    messages: Seq<CompilerMessage>,
    queries: Seq<FixQuery>,
) -> bool {
    &&& queries.len() == placed(messages).len()
    &&& forall|i: int|
        0 <= i < queries.len() ==> (#[trigger] queries[i]).path@ == joined_path(
            root,
            placed(messages)[i].1.file_name@,
        ) && queries[i].range == span_range(placed(messages)[i].1)
}

/// The places for which the language server is asked for repairs: that of each message that has
/// one, in its file from the root of the project.
pub fn fix_queries(root: &str, messages: &Vec<CompilerMessage>) -> (res: Vec<FixQuery>)
    ensures
        are_queries(root@, messages@, res@),
{
    let mut out: Vec<FixQuery> = Vec::new();
    let mut i: usize = 0;
    while i < messages.len()
        invariant
            i <= messages@.len(),
            out@.len() == placed(messages@.take(i as int)).len(),
            forall|k: int|
                0 <= k < out@.len() ==> (#[trigger] out@[k]).path@ == joined_path(
                    root@,
                    placed(messages@.take(i as int))[k].1.file_name@,
                ) && out@[k].range == span_range(placed(messages@.take(i as int))[k].1),
        decreases messages@.len() - i,
    {
        assert(messages@.take(i + 1).drop_last() =~= messages@.take(i as int));
        let message = &messages[i];
        if let Some(at) = find_primary_span(message) {
            let span = &message.spans[at];
            let start = Position {
                line: count_from_zero(span.line_start),
                character: count_from_zero(span.column_start),
            };
            let end = Position {
                line: count_from_zero(span.line_end),
                character: count_from_zero(span.column_end),
            };
            out.push(
                FixQuery {
                    path: path_join(root, span.file_name.as_str()),
                    range: Range { start, end },
                },
            );
        }
        i += 1;
    }
    assert(messages@.take(i as int) =~= messages@);
    out
}

/// What the language server offers at a place: a repair, or a command, which is left out.
#[derive(Clone, Debug)]
pub enum OfferedAction {
    Action(Fix),
    Command,
}

/// The repairs among what is offered.
pub open spec fn offered_fixes(offers: Seq<OfferedAction>) -> Seq<FixView>
    decreases offers.len(),
{
    if offers.len() == 0 {
        Seq::empty()
    } else {
        let rest = offered_fixes(offers.drop_last());
        match offers.last() {
            OfferedAction::Action(fix) => rest.push(fix@),
            OfferedAction::Command => rest,
        }
    }
}

/// The repairs that the language server offers, if it answers.
pub open spec fn fixes_of(offers: Option<Vec<OfferedAction>>) -> Seq<FixView> {
    match offers {
        Some(offers) => offered_fixes(offers@),
        None => Seq::empty(),
    }
}

/// The diagnostic of a message at its place.
pub open spec fn diagnostic_of(
    placed: (CompilerMessage, Span),
    fixes: Seq<FixView>,
) -> DiagnosticView {
    DiagnosticView {
        file_path: placed.1.file_name@,
        severity: placed.0.level@,
        message: placed.0.rendered@,
        line: placed.1.line_start,
        character: placed.1.column_start,
        available_fixes: fixes,
    }
}

fn take_fixes(offers: Option<Vec<OfferedAction>>) -> (res: Vec<Fix>)
    ensures
        fix_views(res@) == fixes_of(offers),
{
    let mut out: Vec<Fix> = Vec::new();
    let all = match offers {
        Some(all) => all,
        None => {
            assert(fix_views(out@) =~= fixes_of(offers));
            return out;
        },
    };
    let mut i: usize = 0;
    assert(fix_views(out@) =~= offered_fixes(all@.take(0)));
    while i < all.len()
        invariant
            i <= all@.len(),
            fix_views(out@) == offered_fixes(all@.take(i as int)),
        decreases all@.len() - i,
    {
        assert(all@.take(i + 1).drop_last() =~= all@.take(i as int));
        let ghost before = out@;
        if let OfferedAction::Action(fix) = &all[i] {
            let copy = crate::actions::copy_fix(fix);
            out.push(copy);
            assert(fix_views(out@) =~= fix_views(before).push(copy@));
        }
        i += 1;
    }
    assert(all@.take(i as int) =~= all@);
    out
}

/// The diagnostic of a message at a place.
pub fn make_diagnostic(message: &CompilerMessage, span: &Span, fixes: Vec<Fix>) -> (res:
    DiagnosticWithFixes)
    ensures
        res@ == diagnostic_of((*message, *span), fix_views(fixes@)),
{
    DiagnosticWithFixes {
        file_path: span.file_name.clone(),
        severity: message.level.clone(),
        message: message.rendered.clone(),
        line: span.line_start,
        character: span.column_start,
        available_fixes: fixes,
    }
}

/// The answer tells what a check of a project found, with the repairs that were offered.
pub open spec fn reports_check(
    messages: Result<Vec<CompilerMessage>, String>,
    offers: Seq<Option<Vec<OfferedAction>>>,
    outcome: Outcome,
) -> bool {
    match messages {
        Err(e) => is_breakdown(outcome, e@),
        Ok(messages) => {
            &&& outcome.notify
            &&& outcome.refresh
            &&& outcome.reply matches Ok(result) && if placed(messages@).len() == 0 {
                is_text(result, false, "Project check passed. No diagnostics found."@)
            } else {
                &&& !result.is_error
                &&& result.content@.len() == 1
                &&& result.content@[0] matches Content::Diagnostics(diagnostics)
                &&& diagnostics@.len() == placed(messages@).len()
                &&& forall|i: int|
                    0 <= i < diagnostics@.len() ==> (#[trigger] diagnostics@[i])@ == diagnostic_of(
                        placed(messages@)[i],
                        fixes_of(offers[i]),
                    )
            }
        },
    }
}

/// Answers a check of a project with its diagnostics and the repairs for them, by the messages of
/// the compiler and what the language server offers at the place of each message that has one. The
/// code actions of the project are to be updated then.
pub fn check_project_with_fixes(
    messages: Result<Vec<CompilerMessage>, String>,
    offers: Vec<Option<Vec<OfferedAction>>>,
) -> (res: Outcome)
    requires
        messages matches Ok(messages) ==> offers@.len() == placed(messages@).len(),
    ensures
        reports_check(messages, offers@, res),
{
    let messages = match messages {
        Err(e) => return break_down(e),
        Ok(messages) => messages,
    };
    let ghost all = offers@;
    let mut left = offers;
    let mut out: Vec<DiagnosticWithFixes> = Vec::new();
    let mut i: usize = messages.len();
    assert(messages@.take(i as int) =~= messages@);
    let ghost total = placed(messages@).len();
    while i > 0
        invariant
            i <= messages@.len(),
            total == placed(messages@).len(),
            all.len() == total,
            left@.len() == placed(messages@.take(i as int)).len(),
            left@.len() + out@.len() == total,
            left@ == all.take(left@.len() as int),
            forall|k: int|
                0 <= k < left@.len() ==> #[trigger] placed(messages@.take(i as int))[k] == placed(
                    messages@,
                )[k],
            forall|k: int|
                0 <= k < out@.len() ==> (#[trigger] out@[k])@ == diagnostic_of(
                    placed(messages@)[total - 1 - k],
                    fixes_of(all[total - 1 - k]),
                ),
        decreases i,
    {
        i -= 1;
        assert(messages@.take(i + 1).drop_last() =~= messages@.take(i as int));
        let message = &messages[i];
        let ghost before = left@;
        match find_primary_span(message) {
            Some(at) => {
                assert(placed(messages@.take(i + 1)).len() == placed(
                    messages@.take(i as int),
                ).len() + 1);
                let offer = left.pop();
                let fixes = match offer {
                    Some(offer) => take_fixes(offer),
                    None => Vec::new(),
                };
                let ghost n = left@.len() as int;
                assert(placed(messages@.take(i + 1))[n] == placed(messages@)[n]);
                assert(n == total - 1 - out@.len());
                let diagnostic = make_diagnostic(message, &message.spans[at], fixes);
                out.push(diagnostic);
                assert forall|k: int| 0 <= k < left@.len() implies #[trigger] placed(
                    messages@.take(i as int),
                )[k] == placed(messages@)[k] by {
                    assert(placed(messages@.take(i + 1))[k] == placed(messages@)[k]);
                }
            },
            None => {
                assert forall|k: int| 0 <= k < left@.len() implies #[trigger] placed(
                    messages@.take(i as int),
                )[k] == placed(messages@)[k] by {
                    assert(placed(messages@.take(i + 1))[k] == placed(messages@)[k]);
                }
            },
        }
    }
    let found: usize = out.len();
    assert(found == total);
    if found == 0 {
        return Outcome {
            reply: Ok(
                text_response("Project check passed. No diagnostics found.".to_owned(), false),
            ),
            notify: true,
            refresh: true,
        };
    }
    let mut ordered: Vec<DiagnosticWithFixes> = Vec::new();
    let mut j: usize = 0;
    while j < found
        invariant
            j <= found,
            found == total,
            out@.len() == total - j,
            ordered@.len() == j,
            forall|k: int|
                0 <= k < out@.len() ==> (#[trigger] out@[k])@ == diagnostic_of(
                    placed(messages@)[total - 1 - k],
                    fixes_of(all[total - 1 - k]),
                ),
            forall|k: int|
                0 <= k < j ==> (#[trigger] ordered@[k])@ == diagnostic_of(
                    placed(messages@)[k],
                    fixes_of(all[k]),
                ),
        decreases found - j,
    {
        if let Some(diagnostic) = out.pop() {
            ordered.push(diagnostic);
        }
        j += 1;
    }
    Outcome {
        reply: Ok(part_response(Content::Diagnostics(ordered))),
        notify: true,
        refresh: true,
    }
}

/// The answer tells what the compiler showed in a check of a project.
pub open spec fn tells_check(rendered: Result<Vec<String>, String>, outcome: Outcome) -> bool {
    match rendered {
        Err(e) => is_breakdown(outcome, e@),
        Ok(messages) => {
            &&& outcome.refresh
            &&& outcome.notify == (messages@.len() > 0)
            &&& outcome.reply matches Ok(result) && if messages@.len() == 0 {
                is_text(result, false, "Project check passed. No errors or warnings."@)
            } else {
                is_texts(result, texts(messages@))
            }
        },
    }
}

/// Answers a check of a project with the messages of the compiler as it shows them. The code
/// actions of the project are to be updated then.
pub fn check_project(rendered: Result<Vec<String>, String>) -> (res: Outcome)
    ensures
        tells_check(rendered, res),
{
    let messages = match rendered {
        Err(e) => return break_down(e),
        Ok(messages) => messages,
    };
    if messages.len() == 0 {
        return Outcome {
            reply: Ok(
                text_response("Project check passed. No errors or warnings.".to_owned(), false),
            ),
            notify: false,
            refresh: true,
        };
    }
    Outcome { reply: Ok(texts_response(messages)), notify: true, refresh: true }
}

/// The answer tells what a test run printed.
pub open spec fn tells_tests(messages: Result<Vec<String>, String>, outcome: Outcome) -> bool {
    match messages {
        Err(e) => is_breakdown(outcome, e@),
        Ok(lines) => {
            &&& outcome.notify
            &&& !outcome.refresh
            &&& outcome.reply matches Ok(result) && is_texts(result, texts(lines@))
        },
    }
}

/// Answers a test run with what the tests printed.
pub fn test_project(messages: Result<Vec<String>, String>) -> (res: Outcome)
    ensures
        tells_tests(messages, res),
{
    match messages {
        Err(e) => break_down(e),
        Ok(lines) => Outcome { reply: Ok(texts_response(lines)), notify: true, refresh: false },
    }
}

/// What comes of the reply of the language server to a renaming.
pub open spec fn gives_edit(
    reply: Result<Option<WorkspaceEdit>, String>,
    res: Result<WorkspaceEdit, ToolError>,
) -> bool {
    match reply {
        Err(e) => res matches Err(error) && is_failure(error, ErrorKind::Internal, e@),
        Ok(None) => res matches Err(error) && is_failure(
            error,
            ErrorKind::Internal,
            "Could not perform rename operation. The symbol at the given location may not be renameable."@,
        ),
        Ok(Some(edit)) => res == Ok::<WorkspaceEdit, ToolError>(edit),
    }
}

/// The edit by which the language server renames a symbol, or the failure where it gives none.
pub fn rename_edit(reply: Result<Option<WorkspaceEdit>, String>) -> (res: Result<
    WorkspaceEdit,
    ToolError,
>)
    ensures
        gives_edit(reply, res),
{
    match reply {
        Err(e) => Err(internal_error(e)),
        Ok(None) => Err(
            internal_error(
                "Could not perform rename operation. The symbol at the given location may not be renameable.".to_owned(),
            ),
        ),
        Ok(Some(edit)) => Ok(edit),
    }
}

/// The report is on the renaming, with the files that the edit changes.
pub open spec fn reports_renaming(
    report: RenameReport,
    symbol_name: Seq<char>,
    new_name: Seq<char>,
    edit: WorkspaceEditView,
    message: Seq<char>,
) -> bool {
    &&& report.symbol_name@ == symbol_name
    &&& report.new_name@ == new_name
    &&& report.changes_count == changed_files(edit).len()
    &&& texts(report.files_affected@) == changed_files(edit)
    &&& report.message@ == message
}

/// The answer tells of a renaming that was to be done at once.
pub open spec fn tells_renaming(
    symbol_name: Seq<char>,
    new_name: Seq<char>,
    edit: WorkspaceEditView,
    applied: Result<(), String>,
    outcome: Outcome,
) -> bool {
    match applied {
        Err(e) => is_refusal(
            outcome,
            "Failed to rename '"@ + symbol_name + "' to '"@ + new_name + "': "@ + e@,
        ),
        Ok(_) => {
            &&& outcome.notify
            &&& outcome.refresh
            &&& outcome.reply matches Ok(result) && !result.is_error && result.content@.len() == 1
                && {
                &&& result.content@[0] matches Content::Rename(report)
                &&& report.status@ == "completed"@
                &&& report.action_id is None
                &&& reports_renaming(
                    report,
                    symbol_name,
                    new_name,
                    edit,
                    "✓ Successfully renamed '"@ + symbol_name + "' to '"@ + new_name + "'"@,
                )
            }
        },
    }
}

/// Answers a renaming that was to be done at once, by whether its edit could be applied.
pub fn rename_symbol(
    symbol_name: &str,
    new_name: &str,
    edit: &WorkspaceEdit,
    applied: Result<(), String>,
) -> (res: Outcome)
    ensures
        tells_renaming(symbol_name@, new_name@, edit@, applied, res),
{
    if let Err(e) = applied {
        return refuse(
            "Failed to rename '".to_owned().concat(symbol_name).concat("' to '").concat(
                new_name,
            ).concat("': ").concat(e.as_str()),
        );
    }
    let report = RenameReport {
        status: "completed".to_owned(),
        action_id: None,
        symbol_name: symbol_name.to_owned(),
        new_name: new_name.to_owned(),
        changes_count: edit.changes_count(),
        files_affected: edit.files_affected(),
        message: "✓ Successfully renamed '".to_owned().concat(symbol_name).concat("' to '").concat(
            new_name,
        ).concat("'"),
    };
    Outcome { reply: Ok(part_response(Content::Rename(report))), notify: true, refresh: true }
}

proof fn lemma_usages_filtered(usages: Seq<Usage>)
    ensures
        usage_texts(usages) == usages.filter_map(
            |usage: Usage|
                match (file_path_of(usage.uri@), usage.content) {
                    (Some(path), Some(content)) => match excerpt(
                        content@,
                        usage.range.start.line,
                        usage.range.end.line,
                        3,
                        3,
                    ) {
                        Some(lines) => Some(
                            "### "@ + path + "\n(Line: "@ + digits_of(
                                (usage.range.start.line + 1) as nat,
                            ) + ")\n```rust\n"@ + lines + "\n```"@,
                        ),
                        None => None,
                    },
                    _ => None,
                },
        ),
    decreases usages.len(),
{
    if usages.len() > 0 {
        lemma_usages_filtered(usages.drop_last());
    }
}

/// Every usage is shown whose URI names a file that can be read and has the lines, and no other,
/// in the order in which the language server found them: with the path of the file, the number of
/// the line, counted from one, and the line with three lines before and after it. Where nothing
/// can be shown, the answer says so.
pub proof fn law_every_usage_is_shown(found: Option<Vec<Usage>>, outcome: Outcome)
    requires
        shows_usages(Ok(found), outcome),
    ensures
        ({
            let usages = match found {
                Some(usages) => usages@,
                None => Seq::empty(),
            };
            let shown = usages.filter_map(
                |usage: Usage|
                    match (file_path_of(usage.uri@), usage.content) {
                        (Some(path), Some(content)) => match excerpt(
                            content@,
                            usage.range.start.line,
                            usage.range.end.line,
                            3,
                            3,
                        ) {
                            Some(lines) => Some(
                                "### "@ + path + "\n(Line: "@ + digits_of(
                                    (usage.range.start.line + 1) as nat,
                                ) + ")\n```rust\n"@ + lines + "\n```"@,
                            ),
                            None => None,
                        },
                        _ => None,
                    },
            );
            &&& outcome.notify
            &&& outcome.reply matches Ok(result) && !result.is_error && if shown.len() == 0 {
                result.content@.len() == 1 && (result.content@[0] matches Content::Text(own) && own@
                    == "No usages found."@)
            } else {
                &&& result.content@.len() == shown.len()
                &&& forall|i: int|
                    0 <= i < shown.len() ==> (#[trigger] result.content@[i] matches Content::Text(own)
                        && own@ == shown[i])
            }
        }),
{
    if let Some(usages) = found {
        lemma_usages_filtered(usages@);
    }
}

/// A usage that can be shown is among those that are shown, and the more usages there are, the
/// more are shown: those of a longer list start with those of its beginning.
pub proof fn law_shown_usages_grow(usages: Seq<Usage>, more: Seq<Usage>, i: int)
    requires
        0 <= i < usages.len(),
    ensures
        usage_texts(usages + more) == usage_texts(usages) + usage_texts(more),
        usage_text(usages[i]) matches Some(text) ==> usage_texts(usages).contains(text),
    decreases usages.len() + more.len(),
{
    if more.len() == 0 {
        assert(usages + more =~= usages);
        assert(usage_texts(usages) + usage_texts(more) =~= usage_texts(usages));
        if i < usages.len() - 1 {
            law_shown_usages_grow(usages.drop_last(), more, i);
            if let Some(text) = usage_text(usages[i]) {
                let rest = usage_texts(usages.drop_last());
                let k = choose|k: int| 0 <= k < rest.len() && rest[k] == text;
                assert(usage_texts(usages)[k] == text);
            }
        } else if let Some(text) = usage_text(usages[i]) {
            let all = usage_texts(usages);
            assert(all[all.len() - 1] == text);
        }
    } else {
        assert((usages + more).drop_last() =~= usages + more.drop_last());
        law_shown_usages_grow(usages, more.drop_last(), i);
        assert(usage_texts(usages + more) =~= usage_texts(usages) + usage_texts(more));
    }
}

/// The repairs of a diagnostic are all the actions that the language server offers at its place,
/// in their order; only commands are left out.
pub proof fn law_all_offered_actions_are_repairs(offers: Seq<OfferedAction>)
    ensures
        offered_fixes(offers) == offers.filter_map(
            |offer: OfferedAction|
                match offer {
                    OfferedAction::Action(fix) => Some(fix@),
                    OfferedAction::Command => None,
                },
        ),
        offered_fixes(offers).len() == offers.filter(|offer: OfferedAction| offer is Action).len(),
        forall|i: int|
            0 <= i < offers.len() ==> (#[trigger] offers[i] matches OfferedAction::Action(fix)
                ==> offered_fixes(offers).contains(fix@)),
    decreases offers.len(),
{
    reveal(Seq::filter);
    if offers.len() > 0 {
        let rest = offers.drop_last();
        law_all_offered_actions_are_repairs(rest);
        let (before, after) = (offered_fixes(rest), offered_fixes(offers));
        assert forall|i: int| 0 <= i < offers.len() implies (
        #[trigger] offers[i] matches OfferedAction::Action(fix) ==> after.contains(fix@)) by {
            if let OfferedAction::Action(fix) = offers[i] {
                if i < rest.len() {
                    assert(rest[i] == offers[i]);
                    let k = choose|k: int| 0 <= k < before.len() && before[k] == fix@;
                    assert(after[k] == fix@);
                } else {
                    assert(after[after.len() - 1] == fix@);
                }
            }
        }
    }
}

/// `s` is the first of the spans that is primary.
proof fn lemma_primary_span(message: CompilerMessage)
    ensures
        match primary_span(message) {
            Some(span) => exists|i: int|
                0 <= i < message.spans@.len() && #[trigger] message.spans@[i] == span
                    && span.is_primary && forall|j: int|
                    0 <= j < i ==> !(#[trigger] message.spans@[j]).is_primary,
            None => forall|i: int|
                0 <= i < message.spans@.len() ==> !(#[trigger] message.spans@[i]).is_primary,
        },
{
    let spans = message.spans@;
    if exists|i: int| is_primary_span(spans, i) {
        let i = choose|i: int| is_primary_span(spans, i);
        assert(spans[i] == primary_span(message)->0);
    } else {
        assert forall|i: int| 0 <= i < spans.len() implies !(#[trigger] spans[i]).is_primary by {
            lemma_no_primary(spans, i);
        }
    }
}

proof fn lemma_no_primary(spans: Seq<Span>, i: int)
    requires
        0 <= i < spans.len(),
        forall|k: int| !is_primary_span(spans, k),
    ensures
        !spans[i].is_primary,
    decreases i,
{
    assert forall|j: int| 0 <= j < i implies !(#[trigger] spans[j]).is_primary by {
        lemma_no_primary(spans, j);
    }
    assert(!is_primary_span(spans, i));
}

/// The messages that have a place are those with a primary span, in their order, and the place of
/// each is the first of its primary spans.
pub proof fn law_primary_spans_are_places(messages: Seq<CompilerMessage>)
    ensures
        ({
            let having = messages.filter(
                |message: CompilerMessage|
                    exists|i: int|
                        0 <= i < message.spans@.len() && (#[trigger] message.spans@[i]).is_primary,
            );
            &&& placed(messages).len() == having.len()
            &&& forall|k: int|
                0 <= k < having.len() ==> (#[trigger] placed(messages)[k]).0 == having[k]
                    && exists|i: int|
                    0 <= i < having[k].spans@.len() && #[trigger] having[k].spans@[i] == placed(
                        messages,
                    )[k].1 && having[k].spans@[i].is_primary && forall|j: int|
                        0 <= j < i ==> !(#[trigger] having[k].spans@[j]).is_primary
        }),
    decreases messages.len(),
{
    reveal(Seq::filter);
    if messages.len() > 0 {
        law_primary_spans_are_places(messages.drop_last());
        lemma_primary_span(messages.last());
        if let Some(span) = primary_span(messages.last()) {
            let i = choose|i: int|
                0 <= i < messages.last().spans@.len() && #[trigger] messages.last().spans@[i]
                    == span && span.is_primary && forall|j: int|
                    0 <= j < i ==> !(#[trigger] messages.last().spans@[j]).is_primary;
            assert(messages.last().spans@[i].is_primary);
        }
    }
}

/// A check reports each message that has a place, in their order, with what the message says and
/// where, and with every action that was offered at that place; a check that finds none says so.
pub proof fn law_check_reports_messages_with_repairs(
    messages: Vec<CompilerMessage>,
    offers: Seq<Option<Vec<OfferedAction>>>,
    outcome: Outcome,
    k: int,
)
    requires
        reports_check(Ok(messages), offers, outcome),
        0 <= k < placed(messages@).len(),
    ensures
        outcome.notify,
        outcome.refresh,
        outcome.reply matches Ok(result) && !result.is_error && result.content@.len() == 1 && {
            let (message, span) = placed(messages@)[k];
            &&& result.content@[0] matches Content::Diagnostics(diagnostics)
            &&& diagnostics@.len() == placed(messages@).len()
            &&& diagnostics@[k].file_path@ == span.file_name@
            &&& diagnostics@[k].severity@ == message.level@
            &&& diagnostics@[k].message@ == message.rendered@
            &&& diagnostics@[k].line == span.line_start
            &&& diagnostics@[k].character == span.column_start
            &&& match offers[k] {
                Some(offered) => {
                    let actions = offered@.filter(|offer: OfferedAction| offer is Action);
                    let fixes = diagnostics@[k].available_fixes@;
                    &&& fixes.len() == actions.len()
                    &&& forall|j: int|
                        0 <= j < fixes.len() ==> (#[trigger] fixes[j])@ == actions[j]->Action_0@
                },
                None => diagnostics@[k].available_fixes@.len() == 0,
            }
        },
{
    if let Ok(result) = outcome.reply {
        if let Content::Diagnostics(diagnostics) = result.content@[0] {
            let fixes = diagnostics@[k].available_fixes@;
            assert(diagnostics@[k]@ == diagnostic_of(placed(messages@)[k], fixes_of(offers[k])));
            assert(fix_views(fixes).len() == fixes.len());
            if let Some(offered) = offers[k] {
                lemma_fixes_by_actions(offered@);
                assert forall|j: int| 0 <= j < fixes.len() implies (#[trigger] fixes[j])@
                    == offered@.filter(|offer: OfferedAction| offer is Action)[j]->Action_0@ by {
                    assert(fix_views(fixes)[j] == fixes[j]@);
                }
            }
        }
    }
}

proof fn lemma_fixes_by_actions(offers: Seq<OfferedAction>)
    ensures
        ({
            let actions = offers.filter(|offer: OfferedAction| offer is Action);
            &&& offered_fixes(offers).len() == actions.len()
            &&& forall|j: int|
                0 <= j < actions.len() ==> #[trigger] offered_fixes(offers)[j]
                    == actions[j]->Action_0@
        }),
    decreases offers.len(),
{
    reveal(Seq::filter);
    if offers.len() > 0 {
        lemma_fixes_by_actions(offers.drop_last());
    }
}

/// Repairs are asked for at the place of each message that has one: in its file from the root of
/// the project, from one position to another, counted from zero where the compiler counts from
/// one.
pub proof fn law_repairs_are_asked_for_at_every_place(
    root: Seq<char>,
    messages: Seq<CompilerMessage>,
    queries: Seq<FixQuery>,
    k: int,
)
    requires
        are_queries(root, messages, queries),
        0 <= k < placed(messages).len(),
    ensures
        queries.len() == placed(messages).len(),
        ({
            let span = placed(messages)[k].1;
            let range = queries[k].range;
            &&& queries[k].path@ == joined_path(root, span.file_name@)
            &&& 1 <= span.line_start <= u32::MAX ==> range.start.line == span.line_start - 1
            &&& 1 <= span.column_start <= u32::MAX ==> range.start.character == span.column_start
                - 1
            &&& 1 <= span.line_end <= u32::MAX ==> range.end.line == span.line_end - 1
            &&& 1 <= span.column_end <= u32::MAX ==> range.end.character == span.column_end - 1
            &&& span.line_start == 0 ==> range.start.line == 0
            &&& span.column_start == 0 ==> range.start.character == 0
            &&& span.line_end == 0 ==> range.end.line == 0
            &&& span.column_end == 0 ==> range.end.character == 0
        }),
{
}

/// A check of a project, and a test run, are answered with every line that was printed, in order;
/// a check that prints nothing is answered with a text that says so.
pub proof fn law_printed_lines_are_told(
    printed: Vec<String>,
    check: Outcome,
    tests: Outcome,
)
    requires
        tells_check(Ok(printed), check),
        tells_tests(Ok(printed), tests),
    ensures
        tests.notify && !tests.refresh,
        check.refresh,
        check.notify <==> printed@.len() > 0,
        tests.reply matches Ok(result) && !result.is_error && result.content@.len()
            == printed@.len() && forall|i: int|
            0 <= i < printed@.len() ==> (#[trigger] result.content@[i] matches Content::Text(own)
                && own@ == printed@[i]@),
        check.reply matches Ok(result) && !result.is_error && if printed@.len() > 0 {
            result.content@.len() == printed@.len() && forall|i: int|
                0 <= i < printed@.len() ==> (#[trigger] result.content@[i] matches Content::Text(own)
                    && own@ == printed@[i]@)
        } else {
            result.content@.len() == 1 && (result.content@[0] matches Content::Text(own) && own@
                == "Project check passed. No errors or warnings."@)
        },
{
}

/// What fails outside is told as a failure inside the server, with its message, and nothing else
/// is done.
pub proof fn law_failures_are_told(
    error: String,
    offers: Seq<Option<Vec<OfferedAction>>>,
    outcome: Outcome,
    edit: Result<WorkspaceEdit, ToolError>,
)
    requires
        ({
            ||| shows_usages(Err(error), outcome)
            ||| reports_check(Err(error), offers, outcome)
            ||| tells_check(Err(error), outcome)
            ||| tells_tests(Err(error), outcome)
        }),
        gives_edit(Err(error), edit),
    ensures
        !outcome.notify,
        !outcome.refresh,
        outcome.reply matches Err(failure) && failure.kind == ErrorKind::Internal
            && failure.message@ == error@,
        edit matches Err(failure) && failure.kind == ErrorKind::Internal && failure.message@
            == error@,
{
}

/// A renaming that was done at once is told with every file that its edit changes; one that could
/// not be done is told with the reason, and nothing is updated. The edit is the one that the
/// language server gave.
pub proof fn law_renaming_is_told(
    symbol_name: Seq<char>,
    new_name: Seq<char>,
    edit: WorkspaceEdit,
    applied: Result<(), String>,
    outcome: Outcome,
    given: Result<WorkspaceEdit, ToolError>,
)
    requires
        tells_renaming(symbol_name, new_name, edit@, applied, outcome),
        gives_edit(Ok(Some(edit)), given),
    ensures
        given == Ok::<WorkspaceEdit, ToolError>(edit),
        applied is Ok ==> outcome.notify && outcome.refresh && (outcome.reply matches Ok(result)
            && !result.is_error && result.content@.len() == 1 && {
            &&& result.content@[0] matches Content::Rename(report)
            &&& report.action_id is None
            &&& report.status@ == "completed"@
            &&& report.message@ == "✓ Successfully renamed '"@ + symbol_name + "' to '"@ + new_name
                + "'"@
            &&& report.symbol_name@ == symbol_name
            &&& report.new_name@ == new_name
            &&& match edit.changes {
                Some(files) => {
                    &&& report.changes_count == files@.len()
                    &&& report.files_affected@.len() == files@.len()
                    &&& forall|i: int|
                        0 <= i < files@.len() ==> (#[trigger] report.files_affected@[i])@
                            == files@[i].uri@
                },
                None => report.changes_count == 0 && report.files_affected@.len() == 0,
            }
        }),
        applied matches Err(e) ==> !outcome.notify && !outcome.refresh && (
        outcome.reply matches Ok(result) && result.is_error && result.content@.len() == 1 && (
        result.content@[0] matches Content::Text(own) && own@ == "Failed to rename '"@ + symbol_name
            + "' to '"@ + new_name + "': "@ + e@)),
{
    if applied is Ok {
        if let Ok(result) = outcome.reply {
            if let Content::Rename(report) = result.content@[0] {
                let listed = texts(report.files_affected@);
                assert(listed.len() == report.files_affected@.len());
                if let Some(files) = edit.changes {
                    assert(changed_files(edit@).len() == files@.len());
                    assert forall|i: int| 0 <= i < files@.len() implies (
                    #[trigger] report.files_affected@[i])@ == files@[i].uri@ by {
                        assert(listed[i] == report.files_affected@[i]@);
                        assert(changed_files(edit@)[i] == files@[i].uri@);
                    }
                }
            }
        }
    }
}

/// What is told of a symbol is its own name and kind, its place, what the language server shows
/// for it, and the lines of its definition with two lines before and five after them.
pub proof fn law_symbol_is_described(
    symbol: SymbolInformation,
    path: Seq<char>,
    hover: Option<HoverContents>,
    content: Option<String>,
    outcome: Outcome,
)
    requires
        describes_symbol(symbol, path, hover, content, outcome),
    ensures
        outcome.notify && outcome.refresh,
        outcome.reply matches Ok(result) && !result.is_error && result.content@.len() == 1 && {
            &&& result.content@[0] matches Content::Symbol(report)
            &&& report.symbol@ == symbol.name@
            &&& report.kind@ == kind_name_of(symbol.kind)
            &&& report.file_path@ == path
            &&& report.start_line == symbol.range.start.line
            &&& report.end_line == symbol.range.end.line
            &&& match hover {
                Some(HoverContents::Scalar(text)) => report.documentation@ == text@,
                Some(HoverContents::Markup(text)) => report.documentation@ == text@,
                Some(HoverContents::Array(parts)) => report.documentation@ == joined(
                    texts(parts@),
                    "\n\n---\n\n"@,
                ) && forall|i: int|
                    0 <= i < parts@.len() ==> occurs(
                        report.documentation@,
                        (#[trigger] parts@[i])@,
                    ),
                None => report.documentation@ == "No documentation found."@,
            }
            &&& content is None ==> report.definition_code@ == "Could not read source file."@
            &&& content matches Some(text) ==> match excerpt(
                text@,
                symbol.range.start.line,
                symbol.range.end.line,
                2,
                5,
            ) {
                Some(lines) => report.definition_code@ == lines,
                None => report.definition_code@ == "Could not read source file."@,
            }
        },
{
    if let Some(HoverContents::Array(parts)) = hover {
        let all = texts(parts@);
        assert forall|i: int| 0 <= i < parts@.len() implies occurs(
            documentation_of(hover),
            (#[trigger] parts@[i])@,
        ) by {
            assert(all[i] == parts@[i]@);
            crate::text::lemma_part_occurs(all, "\n\n---\n\n"@, i);
        }
    }
}

/// A symbol that is located is one that the server listed, with the path of its own file. A tool
/// that asks about a symbol and one that renames it locate the same one.
pub proof fn law_located_symbol_is_listed(
    listed: Option<WorkspaceSymbolResponse>,
    name: Seq<char>,
    hint: Option<Seq<char>>,
    located: Located,
    symbol: SymbolInformation,
    path: String,
)
    requires
        locates(Ok(listed), name, hint, located) || locates_to_rename(
            Ok(listed),
            name,
            hint,
            located,
        ),
        located == (Located::At { symbol, path }),
    ensures
        listed_symbols(listed).contains(symbol),
        file_path_of(symbol.uri@) == Some(path@),
        locates(Ok(listed), name, hint, located),
        locates_to_rename(Ok(listed), name, hint, located),
{
    let found: Result<SymbolInformation, String> = Ok(symbol);
    assert(search_result(Ok(listed), name, hint, found));
    law_resolved_symbol_is_listed(listed_symbols(listed), name, hint, symbol);
}

/// The place of a message is the first of its primary spans, and it has one exactly where one of its
/// spans is primary.
pub proof fn law_first_primary_span_is_the_place(message: CompilerMessage)
    ensures
        match primary_span(message) {
            Some(span) => exists|i: int|
                0 <= i < message.spans@.len() && #[trigger] message.spans@[i] == span
                    && span.is_primary && forall|j: int|
                    0 <= j < i ==> !(#[trigger] message.spans@[j]).is_primary,
            None => forall|i: int|
                0 <= i < message.spans@.len() ==> !(#[trigger] message.spans@[i]).is_primary,
        },
{
    lemma_primary_span(message);
}

/// A check whose messages have no place among them is told as passed, and a renaming to which the
/// language server has no answer as one that it cannot make.
pub proof fn law_empty_answers_are_told(
    messages: Vec<CompilerMessage>,
    offers: Seq<Option<Vec<OfferedAction>>>,
    outcome: Outcome,
    edit: Result<WorkspaceEdit, ToolError>,
)
    requires
        reports_check(Ok(messages), offers, outcome),
        gives_edit(Ok(None), edit),
        forall|k: int, i: int|
            0 <= k < messages@.len() && 0 <= i < messages@[k].spans@.len() ==> !(
            #[trigger] messages@[k].spans@[i]).is_primary,
    ensures
        outcome.notify,
        outcome.refresh,
        outcome.reply matches Ok(result) && !result.is_error && result.content@.len() == 1 && (
        result.content@[0] matches Content::Text(text) && text@
            == "Project check passed. No diagnostics found."@),
        edit matches Err(failure) && failure.kind == ErrorKind::Internal && failure.message@
            == "Could not perform rename operation. The symbol at the given location may not be renameable."@,
{
    lemma_none_placed(messages@);
}

proof fn lemma_none_placed(messages: Seq<CompilerMessage>)
    requires
        forall|k: int, i: int|
            0 <= k < messages.len() && 0 <= i < messages[k].spans@.len() ==> !(
            #[trigger] messages[k].spans@[i]).is_primary,
    ensures
        placed(messages).len() == 0,
    decreases messages.len(),
{
    if messages.len() > 0 {
        let rest = messages.drop_last();
        let n = messages.len() - 1;
        assert forall|k: int, i: int|
            0 <= k < rest.len() && 0 <= i < rest[k].spans@.len() implies !(
        #[trigger] rest[k].spans@[i]).is_primary by {
            assert(rest[k] == messages[k]);
            assert(!messages[k].spans@[i].is_primary);
        }
        lemma_none_placed(rest);
        lemma_primary_span(messages[n]);
        if let Some(span) = primary_span(messages[n]) {
            let i = choose|i: int|
                0 <= i < messages[n].spans@.len() && #[trigger] messages[n].spans@[i] == span
                    && span.is_primary && forall|j: int|
                    0 <= j < i ==> !(#[trigger] messages[n].spans@[j]).is_primary;
            assert(!messages[n].spans@[i].is_primary);
        }
    }
}

/// A symbol that is listed alone is located at the path of its file; where its URI names no file,
/// that is told. Where the language server fails, its error is told, and so is it where it lists no
/// symbol. Nobody else is told of any of this.
pub proof fn law_search_is_answered(
    reply: Result<Option<WorkspaceSymbolResponse>, String>,
    name: Seq<char>,
    hint: Option<Seq<char>>,
    asked: Located,
    renamed: Located,
)
    requires
        locates(reply, name, hint, asked),
        locates_to_rename(reply, name, hint, renamed),
    ensures
        asked matches Located::Answer(outcome) ==> !outcome.notify && !outcome.refresh,
        renamed matches Located::Answer(outcome) ==> !outcome.notify && !outcome.refresh && (
        outcome.reply matches Ok(result) && result.is_error),
        asked is At <==> renamed is At,
        reply matches Err(e) ==> (asked matches Located::Answer(outcome) && (
        outcome.reply matches Ok(result) && result.is_error && result.content@.len() == 1 && (
        result.content@[0] matches Content::Text(text) && text@
            == "LSP error while searching for symbol: "@ + e@))) && (
        renamed matches Located::Answer(outcome) && (outcome.reply matches Ok(result)
            && result.content@.len() == 1 && (result.content@[0] matches Content::Text(text)
            && text@ == "Failed to locate symbol '"@ + name + "': "@ + (
        "LSP error while searching for symbol: "@ + e@)))),
        reply matches Ok(listed) ==> (listed_symbols(listed).len() == 0 ==> (
        asked matches Located::Answer(outcome) && (outcome.reply matches Ok(result)
            && result.is_error && result.content@.len() == 1 && (
        result.content@[0] matches Content::Text(text) && text@ == "Symbol '"@ + name
            + "' not found in project."@)))),
        reply matches Ok(listed) ==> (listed_symbols(listed).len() == 1 ==> match file_path_of(
            listed_symbols(listed)[0].uri@,
        ) {
            Some(own) => {
                &&& asked matches Located::At { symbol, path } && symbol
                    == listed_symbols(listed)[0] && path@ == own
                &&& renamed matches Located::At { symbol, path } && symbol
                    == listed_symbols(listed)[0] && path@ == own
            },
            None => {
                &&& asked matches Located::Answer(outcome) && (outcome.reply matches Err(failure)
                    && failure.kind == ErrorKind::Internal && failure.message@
                    == "Invalid file path in symbol location"@)
                &&& renamed matches Located::Answer(outcome) && (outcome.reply matches Ok(result)
                    && result.content@.len() == 1 && (
                result.content@[0] matches Content::Text(text) && text@
                    == "Invalid file path for symbol '"@ + name + "'"@))
            },
        }),
{
    let one = choose|found: Result<SymbolInformation, String>| #[trigger]
        search_result(reply, name, hint, found) && match found {
            Err(e) => asked matches Located::Answer(outcome) && is_refusal(outcome, e@),
            Ok(info) => match file_path_of(info.uri@) {
                Some(p) => asked matches Located::At { symbol, path } && symbol == info && path@
                    == p,
                None => asked matches Located::Answer(outcome) && is_breakdown(
                    outcome,
                    "Invalid file path in symbol location"@,
                ),
            },
        };
    let two = choose|found: Result<SymbolInformation, String>| #[trigger]
        search_result(reply, name, hint, found) && match found {
            Err(e) => renamed matches Located::Answer(outcome) && is_refusal(
                outcome,
                "Failed to locate symbol '"@ + name + "': "@ + e@,
            ),
            Ok(info) => match file_path_of(info.uri@) {
                Some(p) => renamed matches Located::At { symbol, path } && symbol == info && path@
                    == p,
                None => renamed matches Located::Answer(outcome) && is_refusal(
                    outcome,
                    "Invalid file path for symbol '"@ + name + "'"@,
                ),
            },
        };
    if let Ok(listed) = reply {
        law_one_search_has_one_result(listed_symbols(listed), name, hint, one, two);
    }
}

/// A flag that is left out is not set; one that is given is set as it is given.
pub proof fn law_flag_is_as_given(flag: Option<bool>)
    ensures
        flag is None ==> !is_true(flag),
        flag matches Some(given) ==> is_true(flag) == given,
{
}

}
