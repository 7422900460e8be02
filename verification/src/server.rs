//! The server of the tools: what it remembers between requests, and how it answers them.
use crate::actions::{CodeAction, CodeActionView};
use crate::commands::name_or;
use crate::context::{are_roots, is_named_root, Context};
use crate::notification::McpNotification;
use crate::paths::{file_name_of, normal_path, path_file_name, path_normal};
use crate::reply::{
    internal_error, invalid_params, is_failure, is_refusal, part_response, refuse, Content,
    ErrorKind, Outcome, RefreshReport, RenameReport, ToolError, ToolResult,
};
use crate::store::{
    are_entries, new_table, records, table_clear, table_entries, table_insert, table_len,
    table_remove, ProjectContextView, Record, RecordView, StoredDiagnostic, StoredDiagnosticView,
};
use crate::text::{
    chars_of, decimal, digits_of, equal, law_character_is_replaced_everywhere,
    law_occurrence_is_a_part, occurs, occurs_at, replace, replaced, texts,
};
use crate::tools::{
    diagnostic_of, find_primary_span, make_diagnostic, primary_span, reports_renaming,
    CompilerMessage, Span,
};
use crate::workspace::{
    changed_files, law_changed_files_are_all_listed, WorkspaceEdit, WorkspaceEditView,
};
use dashmap::DashMap;
use vstd::prelude::*;

verus! {

/// What the server remembers between requests: the project that was used last, the code actions
/// that can be executed, and the diagnostics of the last check.
pub struct DevToolsServer {
    pub(crate) last_project: Option<String>,
    pub(crate) code_actions: DashMap<String, Record>,
    pub(crate) diagnostics: DashMap<String, Record>,
}

/// The code actions of a table by their ids.
pub open spec fn actions_in(map: Map<Seq<char>, RecordView>) -> Map<Seq<char>, CodeActionView> {
    map.map_values(|record: RecordView| record->Action_0)
}

/// The diagnostics of a table by their ids.
pub open spec fn diagnostics_in(map: Map<Seq<char>, RecordView>) -> Map<
    Seq<char>,
    StoredDiagnosticView,
> {
    map.map_values(|record: RecordView| record->Diagnostic_0)
}

impl DevToolsServer {
    /// The tables hold code actions, each under its id, and diagnostics.
    pub open(crate) spec fn wf(&self) -> bool {
        &&& forall|key: Seq<char>| #[trigger]
            records(self.code_actions).contains_key(key) ==> {
                &&& records(self.code_actions)[key] is Action
                &&& records(self.code_actions)[key]->Action_0.id == key
            }
        &&& forall|key: Seq<char>| #[trigger]
            records(self.diagnostics).contains_key(key) ==> records(
                self.diagnostics,
            )[key] is Diagnostic
    }

    /// The name of the project that was used last.
    pub open(crate) spec fn remembered(&self) -> Option<String> {
        self.last_project
    }

    /// The code actions that can be executed, by their ids.
    pub open(crate) spec fn actions(&self) -> Map<Seq<char>, CodeActionView> {
        actions_in(records(self.code_actions))
    }

    /// The diagnostics by their ids.
    pub open(crate) spec fn problems(&self) -> Map<Seq<char>, StoredDiagnosticView> {
        diagnostics_in(records(self.diagnostics))
    }

    /// The tables are those of another state.
    pub open(crate) spec fn keeps_tables(&self, other: &DevToolsServer) -> bool {
        &&& self.actions() == other.actions()
        &&& self.problems() == other.problems()
    }
}

/// The message where no project is named and none is loaded.
pub open spec fn no_project_message() -> Seq<char> {
    "No project_name provided and no projects available. Please use manage_projects with add_project_path parameter to load a project first."@
}

/// The name of the project that a request is about, and the one that is remembered then: the
/// name in the request, else the one that was used last, else that of any project.
pub open spec fn names_project(
    before: DevToolsServer,
    after: DevToolsServer,
    projects: Map<Seq<char>, ProjectContextView>,
    asked: Option<String>,
    name: Result<String, ToolError>,
) -> bool {
    match (asked, before.remembered()) {
        (Some(asked), _) => name == Ok::<String, ToolError>(asked) && after.remembered() == Some(
            asked,
        ),
        (None, Some(last)) => name == Ok::<String, ToolError>(last) && after.remembered() == Some(
            last,
        ),
        (None, None) => match name {
            Ok(name) => {
                &&& exists|root: Seq<char>| is_named_root(projects, name@, root)
                &&& after.remembered() == Some(name)
            },
            Err(error) => {
                &&& projects.dom() == Set::<Seq<char>>::empty()
                &&& is_failure(error, ErrorKind::InvalidParams, no_project_message())
                &&& after.remembered() is None
            },
        },
    }
}

/// How the answer to a request starts.
#[derive(Debug)]
pub enum Start {
    /// The project that the request is about, and its root.
    Ready { project_name: String, root: String },
    /// The request is answered at once.
    Answer(Outcome),
    /// A project has to be chosen by its name, and the root of one ends in no name.
    Unnamed,
}

/// The message where no project has the name.
pub open spec fn not_found_message(name: Seq<char>) -> Seq<char> {
    "Project '"@ + name + "' not found."@
}

/// How the answer to a request starts, once the name of the project is known.
pub open spec fn starts(
    projects: Map<Seq<char>, ProjectContextView>,
    name: Result<String, ToolError>,
    start: Start,
) -> bool {
    match name {
        Err(error) => start matches Start::Answer(outcome) && outcome.reply == Err::<
            ToolResult,
            ToolError,
        >(error) && !outcome.notify && !outcome.refresh,
        Ok(name) => match start {
            Start::Ready { project_name, root } => project_name == name && is_named_root(
                projects,
                name@,
                root@,
            ),
            Start::Answer(outcome) => {
                &&& forall|root: Seq<char>| !is_named_root(projects, name@, root)
                &&& is_refusal(outcome, not_found_message(name@))
            },
            Start::Unnamed => false,
        },
    }
}

/// How the answer to a request about a project starts, and what is remembered then.
pub open spec fn selects(
    before: DevToolsServer,
    after: DevToolsServer,
    context: Context,
    asked: Option<String>,
    start: Start,
) -> bool {
    if asked is None && before.remembered() is None && !context.all_named() {
        start is Unnamed && after.remembered() is None
    } else {
        exists|name: Result<String, ToolError>| #[trigger]
            names_project(before, after, context@, asked, name) && starts(context@, name, start)
    }
}

impl DevToolsServer {
    /// A server that remembers nothing yet.
    pub fn new() -> (res: DevToolsServer)
        ensures
            res.wf(),
            res.remembered() is None,
            (res.actions() == Map::<Seq<char>, CodeActionView>::empty()),
            (res.problems() == Map::<Seq<char>, StoredDiagnosticView>::empty()),
    {
        let res = DevToolsServer {
            last_project: None,
            code_actions: new_table(),
            diagnostics: new_table(),
        };
        assert(res.actions() =~= Map::<Seq<char>, CodeActionView>::empty());
        assert(res.problems() =~= Map::<Seq<char>, StoredDiagnosticView>::empty());
        res
    }

    /// The name of the project that was used last.
    pub fn last_project(&self) -> (res: Option<String>)
        ensures
            res == self.remembered(),
    {
        match &self.last_project {
            Some(name) => Some(name.clone()),
            None => None,
        }
    }

    /// The name of the project that a request is about, which is remembered. Where it is neither
    /// in the request nor remembered, the root of every project must end in a name.
    pub fn get_project_name(
        &mut self,
        context: &Context,
        project_name: Option<String>,
    ) -> (res: Result<String, ToolError>)
        requires
            old(self).wf(),
            context.wf(),
            project_name is None && old(self).remembered() is None ==> context.all_named(),
        ensures
            final(self).wf(),
            final(self).keeps_tables(old(self)),
            names_project(*old(self), *final(self), context@, project_name, res),
    {
        if let Some(name) = project_name {
            self.last_project = Some(name.clone());
            return Ok(name);
        }
        if let Some(last) = &self.last_project {
            return Ok(last.clone());
        }
        let projects = context.project_descriptions();
        if projects.len() > 0 {
            let name = projects[0].name.clone();
            assert(is_named_root(context@, name@, projects@[0].root@));
            self.last_project = Some(name.clone());
            Ok(name)
        } else {
            assert(context@.dom() =~= Set::<Seq<char>>::empty()) by {
                assert forall|key: Seq<char>| !context@.dom().contains(key) by {
                    if context@.contains_key(key) {
                        let i = choose|i: int|
                            0 <= i < projects@.len() && normal_path(
                                (#[trigger] projects@[i]).root@,
                            ) == key;
                        assert(false);
                    }
                }
            }
            Err(
                invalid_params(
                    "No project_name provided and no projects available. Please use manage_projects with add_project_path parameter to load a project first.".to_owned(),
                ),
            )
        }
    }

    /// Starts the answer to a request about a project: finds its name, which is remembered, and
    /// its root.
    pub fn select_project(&mut self, context: &Context, project_name: Option<String>) -> (res:
        Start)
        requires
            old(self).wf(),
            context.wf(),
        ensures
            final(self).wf(),
            final(self).keeps_tables(old(self)),
            selects(*old(self), *final(self), *context, project_name, res),
    {
        if project_name.is_none() && self.last_project.is_none() {
            if context.named_descriptions().is_none() {
                return Start::Unnamed;
            }
        }
        let ghost before = *self;
        let name = self.get_project_name(context, project_name);
        assert(names_project(before, *self, context@, project_name, name));
        match name {
            Err(error) => {
                let start = Start::Answer(
                    Outcome { reply: Err(error), notify: false, refresh: false },
                );
                assert(starts(context@, name, start));
                start
            },
            Ok(own) => match context.find_project_by_name(own.as_str()) {
                Some(root) => {
                    let start = Start::Ready { project_name: own, root };
                    assert(starts(context@, name, start));
                    start
                },
                None => {
                    let start = Start::Answer(
                        refuse("Project '".to_owned().concat(own.as_str()).concat("' not found.")),
                    );
                    assert(starts(context@, name, start));
                    start
                },
            },
        }
    }
}

/// The text starts as an escape does.
pub open spec fn reads_as_escape(text: Seq<char>) -> bool {
    &&& text.len() >= 3
    &&& text[0] == '%'
    &&& {
        ||| text[1] == '2' && (text[2] == '0' || text[2] == '5')
        ||| text[1] == '3' && text[2] == 'A'
    }
}

/// How a text that is not empty starts in the id of a code action, and how many of its characters
/// stand there. A space and a path separator are written as escapes, and so is a sign that would
/// start one.
pub open spec fn escape_of(text: Seq<char>) -> (Seq<char>, int) {
    if text[0] == ' ' {
        (seq!['%', '2', '0'], 1)
    } else if text.len() >= 2 && text[0] == ':' && text[1] == ':' {
        (seq!['%', '3', 'A', '%', '3', 'A'], 2)
    } else if reads_as_escape(text) {
        (seq!['%', '2', '5'], 1)
    } else {
        (seq![text[0]], 1)
    }
}

/// A text as it stands in the id of a code action.
pub open spec fn escaped(text: Seq<char>) -> Seq<char>
    decreases text.len(),
{
    if text.len() == 0 {
        Seq::empty()
    } else {
        escape_of(text).0 + escaped(text.skip(escape_of(text).1))
    }
}

/// The id of a code action: the operation, and what it is for without spaces and path separators.
pub open spec fn action_id_of(operation: Seq<char>, target: Seq<char>) -> Seq<char> {
    operation + "_"@ + escaped(target)
}

/// The text starts with what could be taken for the separator between the two names of a renaming,
/// if the separator comes next.
pub open spec fn starts_separator(text: Seq<char>) -> bool {
    &&& text.len() >= 3
    &&& text[0] == '_' && text[1] == 't' && text[2] == 'o'
    &&& text.len() > 3 ==> text[3] == '_'
}

/// The text starts as the mark of a separator does.
pub open spec fn reads_as_mark(text: Seq<char>) -> bool {
    text.len() >= 2 && text[0] == '~' && (text[1] == '0' || text[1] == '1')
}

/// The name of a symbol as it stands before the separator. What could be taken for the separator is
/// marked in it, and so is a sign that would start such a mark.
pub open spec fn separable(name: Seq<char>) -> Seq<char>
    decreases name.len(),
{
    if name.len() == 0 {
        Seq::empty()
    } else if reads_as_mark(name) {
        seq!['~', '0'] + separable(name.skip(1))
    } else if starts_separator(name) {
        seq!['~', '1'] + separable(name.skip(1))
    } else {
        seq![name[0]] + separable(name.skip(1))
    }
}

/// What a renaming is for: the old name and the new one.
pub open spec fn rename_target(symbol_name: Seq<char>, new_name: Seq<char>) -> Seq<char> {
    separable(symbol_name) + "_to_"@ + new_name
}

/// The id of the action that keeps a renaming.
pub open spec fn rename_id(symbol_name: Seq<char>, new_name: Seq<char>) -> Seq<char> {
    action_id_of("rename"@, rename_target(symbol_name, new_name))
}

/// The renaming is kept as a code action, and the answer is a preview of it.
pub open spec fn previews(
    before: DevToolsServer,
    after: DevToolsServer,
    project_name: Seq<char>,
    symbol_name: Seq<char>,
    new_name: Seq<char>,
    edit: WorkspaceEditView,
    outcome: Outcome,
) -> bool {
    let id = rename_id(symbol_name, new_name);
    &&& after.remembered() == before.remembered()
    &&& after.problems() == before.problems()
    &&& after.actions() == before.actions().insert(
        id,
        rename_action(project_name, symbol_name, new_name, edit),
    )
    &&& outcome.notify
    &&& !outcome.refresh
    &&& outcome.reply matches Ok(result) && !result.is_error && result.content@.len() == 1 && {
        &&& result.content@[0] matches Content::Rename(report)
        &&& report.status@ == "preview"@
        &&& report.action_id matches Some(own) && own@ == id
        &&& reports_renaming(
            report,
            symbol_name,
            new_name,
            edit,
            "Created rename preview. Use execute_code_action('"@ + id + "') to apply changes."@,
        )
    }
}

fn escape(text: &str) -> (res: String)
    ensures
        res@ == escaped(text@),
{
    let chars = chars_of(text);
    let n: usize = chars.len();
    let mut out = String::new();
    let mut i: usize = 0;
    proof {
        reveal_strlit("%20");
        reveal_strlit("%3A%3A");
        reveal_strlit("%25");
    }
    assert(text@.skip(0) =~= text@);
    assert(out@ + escaped(text@.skip(0)) =~= escaped(text@));
    while i < n
        invariant
            chars@ == text@,
            n == chars@.len(),
            i <= n,
            "%20"@ == seq!['%', '2', '0'],
            "%3A%3A"@ == seq!['%', '3', 'A', '%', '3', 'A'],
            "%25"@ == seq!['%', '2', '5'],
            out@ + escaped(text@.skip(i as int)) == escaped(text@),
        decreases n - i,
    {
        let ghost before = out@;
        let ghost rest = text@.skip(i as int);
        assert(rest[0] == text@[i as int]);
        assert(rest.len() > 1 ==> rest[1] == text@[i + 1]);
        assert(rest.len() > 2 ==> rest[2] == text@[i + 2]);
        let c = chars[i];
        let next: char = if n - i >= 2 {
            chars[i + 1]
        } else {
            ' '
        };
        let third: char = if n - i >= 3 {
            chars[i + 2]
        } else {
            ' '
        };
        let taken: usize;
        if c == ' ' {
            out.append("%20");
            taken = 1;
        } else if c == ':' && next == ':' {
            out.append("%3A%3A");
            taken = 2;
        } else if c == '%' && ((next == '2' && (third == '0' || third == '5')) || (next == '3'
            && third == 'A')) {
            out.append("%25");
            taken = 1;
        } else {
            out.push(c);
            taken = 1;
        }
        assert(out@ =~= before + escape_of(rest).0);
        assert(taken == escape_of(rest).1);
        assert(rest.skip(taken as int) =~= text@.skip(i + taken));
        i += taken;
        assert(out@ + escaped(text@.skip(i as int)) =~= before + escaped(rest));
    }
    assert(out@ =~= escaped(text@));
    out
}

fn separate(name: &str) -> (res: String)
    ensures
        res@ == separable(name@),
{
    let chars = chars_of(name);
    let n: usize = chars.len();
    let mut out = String::new();
    let mut i: usize = 0;
    assert(name@.skip(0) =~= name@);
    assert(out@ + separable(name@.skip(0)) =~= separable(name@));
    while i < n
        invariant
            chars@ == name@,
            n == chars@.len(),
            i <= n,
            out@ + separable(name@.skip(i as int)) == separable(name@),
        decreases n - i,
    {
        let ghost before = out@;
        let ghost rest = name@.skip(i as int);
        assert(rest.skip(1) =~= name@.skip(i + 1));
        assert forall|k: int| 0 <= k < rest.len() implies rest[k] == name@[i + k] by {}
        let c = chars[i];
        if c == '~' && n - i >= 2 && (chars[i + 1] == '0' || chars[i + 1] == '1') {
            assert(reads_as_mark(rest));
            out.push('~');
            out.push('0');
            assert(out@ =~= before + seq!['~', '0']);
        } else if c == '_' && n - i >= 3 && chars[i + 1] == 't' && chars[i + 2] == 'o' && (n - i
            == 3 || chars[i + 3] == '_') {
            assert(starts_separator(rest));
            out.push('~');
            out.push('1');
            assert(out@ =~= before + seq!['~', '1']);
        } else {
            assert(!reads_as_mark(rest) && !starts_separator(rest));
            out.push(c);
            assert(out@ =~= before + seq![c]);
        }
        i += 1;
        assert(out@ + separable(name@.skip(i as int)) =~= before + separable(rest));
    }
    assert(out@ =~= separable(name@));
    out
}

proof fn lemma_escaped_head(text: Seq<char>)
    ensures
        text.len() == 0 <==> escaped(text).len() == 0,
        text.len() > 0 ==> escaped(text)[0] == escape_of(text).0[0],
        text.len() > 0 && escaped(text)[0] != '%' ==> text[0] == escaped(text)[0] && escaped(text)
            == seq![text[0]] + escaped(text.skip(1)),
{
}

/// A sign that is no escape does not read as one in an id.
proof fn lemma_plain_sign(text: Seq<char>)
    requires
        text.len() > 0,
        text[0] == '%',
        !reads_as_escape(text),
    ensures
        !reads_as_escape(escaped(text)),
{
    let x = escaped(text);
    let rest = text.skip(1);
    assert(x =~= seq!['%'] + escaped(rest));
    if reads_as_escape(x) {
        assert(escaped(rest)[0] == x[1]);
        lemma_escaped_head(rest);
        assert(escaped(rest.skip(1))[0] == x[2]);
        lemma_escaped_head(rest.skip(1));
        assert(text[1] == x[1] && text[2] == x[2]);
    }
}

proof fn lemma_escaped_differ(a: Seq<char>, b: Seq<char>)
    requires
        escaped(a) == escaped(b),
    ensures
        a == b,
    decreases a.len(),
{
    lemma_escaped_head(a);
    lemma_escaped_head(b);
    if a.len() > 0 {
        let (x, n) = escape_of(a);
        let (y, m) = escape_of(b);
        assert(escaped(a).take(x.len() as int) =~= x);
        assert(escaped(b).take(y.len() as int) =~= y);
        if x.len() == 1 && a[0] == '%' {
            lemma_plain_sign(a);
        }
        if y.len() == 1 && b[0] == '%' {
            lemma_plain_sign(b);
        }
        assert(x.len() > 1 ==> escaped(a)[1] == x[1] && escaped(a)[2] == x[2]);
        assert(y.len() > 1 ==> escaped(b)[1] == y[1] && escaped(b)[2] == y[2]);
        assert(x == y && n == m);
        assert(escaped(a.skip(n)) =~= escaped(a).skip(x.len() as int));
        assert(escaped(b.skip(n)) =~= escaped(b).skip(x.len() as int));
        lemma_escaped_differ(a.skip(n), b.skip(n));
        assert(a.take(n) =~= b.take(n));
        assert(a =~= a.take(n) + a.skip(n));
        assert(b =~= b.take(n) + b.skip(n));
    } else {
        assert(a =~= b);
    }
}

/// Two actions of one operation have the same id only where they are for the same target.
pub proof fn law_action_ids_differ(operation: Seq<char>, a: Seq<char>, b: Seq<char>)
    requires
        a != b,
    ensures
        action_id_of(operation, a) != action_id_of(operation, b),
{
    let head = operation + "_"@;
    if action_id_of(operation, a) == action_id_of(operation, b) {
        let n = head.len() as int;
        assert(action_id_of(operation, a).skip(n) =~= escaped(a));
        assert(action_id_of(operation, b).skip(n) =~= escaped(b));
        lemma_escaped_differ(a, b);
    }
}

/// The name starts with what is marked in it.
pub open spec fn is_marked(name: Seq<char>) -> bool {
    reads_as_mark(name) || starts_separator(name)
}

proof fn lemma_separable_head(name: Seq<char>)
    ensures
        name.len() == 0 <==> separable(name).len() == 0,
        name.len() > 0 ==> separable(name)[0] == (if is_marked(name) {
            '~'
        } else {
            name[0]
        }),
{
}

/// A sign that starts no mark does not read as a mark.
proof fn lemma_plain_tilde(name: Seq<char>)
    requires
        name.len() > 0,
        name[0] == '~',
        !reads_as_mark(name),
    ensures
        !reads_as_mark(separable(name)),
{
    let x = separable(name);
    let rest = name.skip(1);
    assert(x =~= seq!['~'] + separable(rest));
    if reads_as_mark(x) {
        assert(separable(rest)[0] == x[1]);
        lemma_separable_head(rest);
        assert(name[1] == x[1]);
    }
}

proof fn lemma_separable_differ(a: Seq<char>, b: Seq<char>)
    requires
        separable(a) == separable(b),
    ensures
        a == b,
    decreases a.len(),
{
    lemma_separable_head(a);
    lemma_separable_head(b);
    if a.len() > 0 {
        let x = separable(a);
        let y = separable(b);
        if !is_marked(a) && a[0] == '~' {
            lemma_plain_tilde(a);
        }
        if !is_marked(b) && b[0] == '~' {
            lemma_plain_tilde(b);
        }
        if is_marked(a) {
            assert(reads_as_mark(x));
            assert(is_marked(b));
            assert(x[1] == y[1]);
            assert(a[0] == b[0]);
            assert(separable(a.skip(1)) =~= x.skip(2));
            assert(separable(b.skip(1)) =~= y.skip(2));
        } else {
            if is_marked(b) {
                assert(reads_as_mark(y));
            }
            assert(a[0] == b[0]);
            assert(separable(a.skip(1)) =~= x.skip(1));
            assert(separable(b.skip(1)) =~= y.skip(1));
        }
        lemma_separable_differ(a.skip(1), b.skip(1));
        assert(a =~= seq![a[0]] + a.skip(1));
        assert(b =~= seq![b[0]] + b.skip(1));
    } else {
        assert(a =~= b);
    }
}

/// Nothing in the old name of a renaming could be taken for the separator.
proof fn lemma_separable(name: Seq<char>, i: int)
    requires
        0 <= i < separable(name).len(),
    ensures
        !starts_separator(separable(name).skip(i)),
    decreases name.len(),
{
    let x = separable(name);
    let rest = name.skip(1);
    lemma_separable_head(name);
    let width: int = if is_marked(name) {
        2
    } else {
        1
    };
    assert(separable(rest) =~= x.skip(width));
    if i >= width {
        assert(x.skip(i) =~= separable(rest).skip(i - width));
        lemma_separable(rest, i - width);
    } else if starts_separator(x.skip(i)) {
        assert(x.skip(i)[0] == x[i] && x.skip(i)[1] == x[i + 1] && x.skip(i)[2] == x[i + 2]);
        assert(i == 0 && width == 1);
        let second = rest.skip(1);
        let third = second.skip(1);
        assert(separable(rest)[0] == 't');
        lemma_separable_head(rest);
        assert(separable(second) =~= x.skip(2));
        assert(separable(second)[0] == 'o');
        lemma_separable_head(second);
        assert(separable(third) =~= x.skip(3));
        lemma_separable_head(third);
        assert(name[1] == rest[0] && name[2] == second[0]);
        assert(name.len() > 3);
        assert(name[3] == third[0]);
        assert(x[3] == separable(third)[0]);
        assert(x.skip(0)[3] == x[3]);
    }
}

proof fn lemma_same_target(a: Seq<char>, b: Seq<char>, x: Seq<char>, y: Seq<char>)
    requires
        rename_target(a, x) == rename_target(b, y),
    ensures
        separable(a).len() >= separable(b).len(),
{
    reveal_strlit("_to_");
    let t = rename_target(a, x);
    let i = separable(a).len() as int;
    let own = separable(b);
    let n = own.len() as int;
    if i < n {
        lemma_separable(b, i);
        assert(t[i] == '_' && t[i + 1] == 't' && t[i + 2] == 'o' && t[i + 3] == '_');
        assert forall|k: int| 0 <= k < n implies t[k] == own[k] by {}
        assert(t[n] == '_' && t[n + 1] == 't');
        if i + 2 < n {
            assert(own.skip(i)[0] == '_' && own.skip(i)[1] == 't' && own.skip(i)[2] == 'o');
            assert(own.skip(i).len() > 3 ==> own.skip(i)[3] == t[i + 3]);
        }
    }
}

/// Two renamings are kept under the same id only where both names are the same: keeping one never
/// takes the place of another.
pub proof fn law_rename_ids_differ(
    symbol_name: Seq<char>,
    new_name: Seq<char>,
    other_symbol: Seq<char>,
    other_name: Seq<char>,
)
    requires
        symbol_name != other_symbol || new_name != other_name,
    ensures
        rename_id(symbol_name, new_name) != rename_id(other_symbol, other_name),
{
    let s = rename_target(symbol_name, new_name);
    let t = rename_target(other_symbol, other_name);
    if s == t {
        let a = separable(symbol_name);
        let b = separable(other_symbol);
        lemma_same_target(symbol_name, other_symbol, new_name, other_name);
        lemma_same_target(other_symbol, symbol_name, other_name, new_name);
        let n = a.len() as int;
        assert(s.take(n) =~= a);
        assert(t.take(n) =~= b);
        lemma_separable_differ(symbol_name, other_symbol);
        let m = n + "_to_"@.len();
        assert(s.skip(m) =~= new_name);
        assert(t.skip(m) =~= other_name);
    } else {
        law_action_ids_differ("rename"@, s, t);
    }
}

/// The action that keeps a renaming.
pub open spec fn rename_action(
    project_name: Seq<char>,
    symbol_name: Seq<char>,
    new_name: Seq<char>,
    edit: WorkspaceEditView,
) -> CodeActionView {
    CodeActionView {
        id: rename_id(symbol_name, new_name),
        title: "Rename '"@ + symbol_name + "' to '"@ + new_name + "'"@,
        kind: Some("refactor"@),
        workspace_edit: Some(edit),
        project_name,
        description: "Rename symbol '"@ + symbol_name + "' to '"@ + new_name + "'"@,
    }
}

impl DevToolsServer {
    /// The id of a code action, which is simple and tells what the action does. No two targets of
    /// an operation have the same id.
    pub fn generate_action_id(&self, operation: &str, target: &str) -> (res: String)
        ensures
            res@ == action_id_of(operation@, target@),
    {
        operation.to_owned().concat("_").concat(escape(target).as_str())
    }

    /// Keeps a renaming as a code action, and answers with a preview of it.
    pub fn preview_rename(
        &mut self,
        project_name: &str,
        symbol_name: &str,
        new_name: &str,
        edit: &WorkspaceEdit,
    ) -> (res: Outcome)
        requires
            old(self).wf(),
        ensures
            final(self).wf(),
            previews(
                *old(self),
                *final(self),
                project_name@,
                symbol_name@,
                new_name@,
                edit@,
                res,
            ),
    {
        let target = separate(symbol_name).concat("_to_").concat(new_name);
        let id = self.generate_action_id("rename", target.as_str());
        let action = CodeAction {
            id: id.clone(),
            title: "Rename '".to_owned().concat(symbol_name).concat("' to '").concat(
                new_name,
            ).concat("'"),
            kind: Some("refactor".to_owned()),
            workspace_edit: Some(edit.copy()),
            project_name: project_name.to_owned(),
            description: "Rename symbol '".to_owned().concat(symbol_name).concat("' to '").concat(
                new_name,
            ).concat("'"),
        };
        let ghost before = self.actions();
        assert(action@ == rename_action(project_name@, symbol_name@, new_name@, edit@));
        table_insert(&mut self.code_actions, id.clone(), Record::Action(action));
        assert(self.actions() =~= before.insert(id@, action@));
        let message = "Created rename preview. Use execute_code_action('".to_owned().concat(
            id.as_str(),
        ).concat("') to apply changes.");
        let report = RenameReport {
            status: "preview".to_owned(),
            action_id: Some(id),
            symbol_name: symbol_name.to_owned(),
            new_name: new_name.to_owned(),
            changes_count: edit.changes_count(),
            files_affected: edit.files_affected(),
            message,
        };
        Outcome { reply: Ok(part_response(Content::Rename(report))), notify: true, refresh: false }
    }
}

/// The code actions of a project.
pub open spec fn actions_of(
    actions: Map<Seq<char>, CodeActionView>,
    project_name: Seq<char>,
) -> Map<Seq<char>, CodeActionView> {
    Map::new(
        |key: Seq<char>| actions.contains_key(key) && actions[key].project_name == project_name,
        |key: Seq<char>| actions[key],
    )
}

/// The code actions of other projects.
pub open spec fn actions_without(
    actions: Map<Seq<char>, CodeActionView>,
    project_name: Seq<char>,
) -> Map<Seq<char>, CodeActionView> {
    Map::new(
        |key: Seq<char>| actions.contains_key(key) && actions[key].project_name != project_name,
        |key: Seq<char>| actions[key],
    )
}

/// The diagnostic belongs to a project: the check of the project gave it.
pub open spec fn belongs_to(problem: StoredDiagnosticView, root: Seq<char>) -> bool {
    problem.root == root
}

/// The diagnostics that do not belong to a project.
pub open spec fn problems_without(
    problems: Map<Seq<char>, StoredDiagnosticView>,
    root: Seq<char>,
) -> Map<Seq<char>, StoredDiagnosticView> {
    Map::new(
        |key: Seq<char>| problems.contains_key(key) && !belongs_to(problems[key], root),
        |key: Seq<char>| problems[key],
    )
}

/// The id of a diagnostic: its file without separators, and its place.
pub open spec fn diagnostic_id_of(span: Span) -> Seq<char> {
    "diagnostic_"@ + replaced(replaced(span.file_name@, "\\"@, "_"@), "/"@, "_"@) + "_"@
        + digits_of(span.line_start as nat) + "_line_"@ + digits_of(span.column_start as nat)
}

/// The diagnostics with those of the messages of the compiler that have a place, which the check
/// of a project gave. A later message takes the place of an earlier one with its id.
pub open spec fn problems_with(
    problems: Map<Seq<char>, StoredDiagnosticView>,
    root: Seq<char>,
    messages: Seq<CompilerMessage>,
) -> Map<Seq<char>, StoredDiagnosticView>
    decreases messages.len(),
{
    if messages.len() == 0 {
        problems
    } else {
        let rest = problems_with(problems, root, messages.drop_last());
        match primary_span(messages.last()) {
            Some(span) => rest.insert(
                diagnostic_id_of(span),
                StoredDiagnosticView {
                    root,
                    diagnostic: diagnostic_of((messages.last(), span), Seq::empty()),
                },
            ),
            None => rest,
        }
    }
}

fn diagnostic_id(span: &Span) -> (res: String)
    ensures
        res@ == diagnostic_id_of(*span),
{
    proof {
        reveal_strlit("\\");
        reveal_strlit("/");
    }
    let slashed = replace(span.file_name.as_str(), "\\", "_");
    let plain = replace(slashed.as_str(), "/", "_");
    "diagnostic_".to_owned().concat(plain.as_str()).concat("_").concat(
        decimal(span.line_start as u64).as_str(),
    ).concat("_line_").concat(decimal(span.column_start as u64).as_str())
}

/// What is known of a project is forgotten, if it is loaded.
pub open spec fn starts_update(
    before: DevToolsServer,
    after: DevToolsServer,
    projects: Map<Seq<char>, ProjectContextView>,
    root: Seq<char>,
    res: Result<(), ToolError>,
) -> bool {
    if projects.contains_key(normal_path(root)) {
        &&& res is Ok
        &&& after.actions() == actions_without(before.actions(), name_or(root, "unknown"@))
        &&& after.problems() == problems_without(before.problems(), normal_path(root))
    } else {
        &&& res matches Err(error) && is_failure(error, ErrorKind::Internal, "Project not found"@)
        &&& after.keeps_tables(&before)
    }
}

/// The diagnostics of a check are kept, and a message is to be sent; where the check failed,
/// nothing changes.
pub open spec fn ends_update(
    before: DevToolsServer,
    after: DevToolsServer,
    root: Seq<char>,
    messages: Result<Vec<CompilerMessage>, String>,
    sent: Option<McpNotification>,
) -> bool {
    match messages {
        Err(_) => sent is None && after.problems() == before.problems(),
        Ok(messages) => {
            &&& after.problems() == problems_with(before.problems(), normal_path(root), messages@)
            &&& sent matches Some(McpNotification::CodeActionsUpdated { project, action_count })
                && project@ == root && action_count == 0
        },
    }
}

impl DevToolsServer {
    fn drop_actions(&mut self, project_name: &str)
        requires
            old(self).wf(),
        ensures
            final(self).wf(),
            final(self).remembered() == old(self).remembered(),
            final(self).problems() == old(self).problems(),
            final(self).actions() == actions_without(old(self).actions(), project_name@),
    {
        let ghost before = self.actions();
        let entries = table_entries(&self.code_actions);
        let ghost all = records(self.code_actions);
        let mut i: usize = 0;
        while i < entries.len()
            invariant
                self.wf(),
                are_entries(all, entries@),
                before == actions_in(all),
                forall|key: Seq<char>| #[trigger] all.contains_key(key) ==> all[key] is Action,
                self.remembered() == old(self).remembered(),
                self.problems() == old(self).problems(),
                i <= entries@.len(),
                forall|key: Seq<char>| #[trigger]
                    self.actions().contains_key(key) ==> before.contains_key(key)
                        && self.actions()[key] == before[key],
                forall|key: Seq<char>| #[trigger]
                    before.contains_key(key) && before[key].project_name != project_name@
                        ==> self.actions().contains_key(key),
                forall|k: int|
                    0 <= k < i && before[(#[trigger] entries@[k]).0@].project_name == project_name@
                        ==> !self.actions().contains_key(entries@[k].0@),
            decreases entries@.len() - i,
        {
            assert(all.contains_key(entries@[i as int].0@));
            if let Record::Action(action) = &entries[i].1 {
                if equal(action.project_name.as_str(), project_name) {
                    let ghost now = self.actions();
                    let _ = table_remove(&mut self.code_actions, entries[i].0.as_str());
                    assert(self.actions() =~= now.remove(entries@[i as int].0@));
                }
            }
            i += 1;
        }
        proof {
            let want = actions_without(before, project_name@);
            assert forall|key: Seq<char>|
                self.actions().contains_key(key) == #[trigger] want.contains_key(key) && (
                want.contains_key(key) ==> self.actions()[key] == want[key]) by {
                if self.actions().contains_key(key) {
                    assert(all.contains_key(key));
                    let k = choose|k: int|
                        0 <= k < entries@.len() && (#[trigger] entries@[k]).0@ == key;
                    assert(before[entries@[k].0@].project_name != project_name@);
                }
                if want.contains_key(key) {
                    assert(before.contains_key(key));
                }
            }
            assert(self.actions() =~= want);
        }
    }

    fn drop_problems(&mut self, root: &str)
        requires
            old(self).wf(),
        ensures
            final(self).wf(),
            final(self).remembered() == old(self).remembered(),
            final(self).actions() == old(self).actions(),
            final(self).problems() == problems_without(old(self).problems(), root@),
    {
        let ghost before = self.problems();
        let entries = table_entries(&self.diagnostics);
        let ghost all = records(self.diagnostics);
        let mut i: usize = 0;
        while i < entries.len()
            invariant
                self.wf(),
                are_entries(all, entries@),
                before == diagnostics_in(all),
                forall|key: Seq<char>| #[trigger] all.contains_key(key) ==> all[key] is Diagnostic,
                self.remembered() == old(self).remembered(),
                self.actions() == old(self).actions(),
                i <= entries@.len(),
                forall|key: Seq<char>| #[trigger]
                    self.problems().contains_key(key) ==> before.contains_key(key)
                        && self.problems()[key] == before[key],
                forall|key: Seq<char>| #[trigger]
                    before.contains_key(key) && !belongs_to(before[key], root@)
                        ==> self.problems().contains_key(key),
                forall|k: int|
                    0 <= k < i && belongs_to(before[(#[trigger] entries@[k]).0@], root@)
                        ==> !self.problems().contains_key(entries@[k].0@),
            decreases entries@.len() - i,
        {
            assert(all.contains_key(entries@[i as int].0@));
            if let Record::Diagnostic(stored) = &entries[i].1 {
                if equal(stored.root.as_str(), root) {
                    let ghost now = self.problems();
                    let _ = table_remove(&mut self.diagnostics, entries[i].0.as_str());
                    assert(self.problems() =~= now.remove(entries@[i as int].0@));
                }
            }
            i += 1;
        }
        proof {
            let want = problems_without(before, root@);
            assert forall|key: Seq<char>|
                self.problems().contains_key(key) == #[trigger] want.contains_key(key) && (
                want.contains_key(key) ==> self.problems()[key] == want[key]) by {
                if self.problems().contains_key(key) {
                    assert(all.contains_key(key));
                    let k = choose|k: int|
                        0 <= k < entries@.len() && (#[trigger] entries@[k]).0@ == key;
                    assert(!belongs_to(before[entries@[k].0@], root@));
                }
                if want.contains_key(key) {
                    assert(before.contains_key(key));
                }
            }
            assert(self.problems() =~= want);
        }
    }

    /// Starts the update of the code actions of a project: what was known of it is forgotten, that
    /// is, the actions with the name of the project, and the diagnostics that its checks gave. The
    /// project is to be checked next.
    pub fn auto_update_code_actions(&mut self, context: &Context, root: &str) -> (res: Result<
        (),
        ToolError,
    >)
        requires
            old(self).wf(),
            context.wf(),
        ensures
            final(self).wf(),
            final(self).remembered() == old(self).remembered(),
            starts_update(*old(self), *final(self), context@, root@, res),
    {
        if context.get_project(root).is_none() {
            return Err(internal_error("Project not found".to_owned()));
        }
        let name = match path_file_name(root) {
            Some(name) => name,
            None => "unknown".to_owned(),
        };
        self.drop_actions(name.as_str());
        let key = path_normal(root);
        self.drop_problems(key.as_str());
        Ok(())
    }

    /// Ends the update of the code actions of a project, by what the check of the project gave:
    /// the diagnostics of its messages are kept, and the message that is to be sent comes back.
    /// Where the check failed, nothing changes.
    pub fn finish_update(
        &mut self,
        root: &str,
        messages: Result<Vec<CompilerMessage>, String>,
    ) -> (res: Option<McpNotification>)
        requires
            old(self).wf(),
        ensures
            final(self).wf(),
            final(self).remembered() == old(self).remembered(),
            final(self).actions() == old(self).actions(),
            ends_update(*old(self), *final(self), root@, messages, res),
    {
        let messages = match messages {
            Err(_) => return None,
            Ok(messages) => messages,
        };
        let key = path_normal(root);
        let mut i: usize = 0;
        while i < messages.len()
            invariant
                self.wf(),
                self.remembered() == old(self).remembered(),
                self.actions() == old(self).actions(),
                i <= messages@.len(),
                key@ == normal_path(root@),
                self.problems() == problems_with(
                    old(self).problems(),
                    key@,
                    messages@.take(i as int),
                ),
            decreases messages@.len() - i,
        {
            assert(messages@.take(i + 1).drop_last() =~= messages@.take(i as int));
            let message = &messages[i];
            if let Some(at) = find_primary_span(message) {
                let span = &message.spans[at];
                let diagnostic = make_diagnostic(message, span, Vec::new());
                assert(diagnostic@.available_fixes =~= Seq::empty());
                let ghost now = self.problems();
                let id = diagnostic_id(span);
                let stored = StoredDiagnostic { root: key.clone(), diagnostic };
                table_insert(&mut self.diagnostics, id, Record::Diagnostic(stored));
                assert(self.problems() =~= now.insert(diagnostic_id_of(*span), stored@));
            }
            i += 1;
        }
        assert(messages@.take(i as int) =~= messages@);
        Some(McpNotification::CodeActionsUpdated { project: root.to_owned(), action_count: 0 })
    }

    /// Starts the update of the code actions of all projects: the actions and the diagnostics of
    /// every project are forgotten. The roots of the projects come back, and each of them is to be
    /// updated next.
    pub fn refresh_all_code_actions(&mut self, context: &Context) -> (res: Vec<String>)
        requires
            old(self).wf(),
            context.wf(),
        ensures
            final(self).wf(),
            final(self).remembered() == old(self).remembered(),
            (final(self).actions() == Map::<Seq<char>, CodeActionView>::empty()),
            (final(self).problems() == Map::<Seq<char>, StoredDiagnosticView>::empty()),
            are_roots(context@, res@),
    {
        table_clear(&mut self.code_actions);
        table_clear(&mut self.diagnostics);
        assert(self.actions() =~= Map::<Seq<char>, CodeActionView>::empty());
        assert(self.problems() =~= Map::<Seq<char>, StoredDiagnosticView>::empty());
        context.project_roots()
    }

    fn count_actions(&self, project_name: &str) -> (res: usize)
        requires
            self.wf(),
        ensures
            res == actions_of(self.actions(), project_name@).len(),
    {
        let entries = table_entries(&self.code_actions);
        let ghost mut seen: Set<Seq<char>> = Set::empty();
        let ghost own = actions_of(self.actions(), project_name@);
        let mut n: usize = 0;
        let mut i: usize = 0;
        while i < entries.len()
            invariant
                self.wf(),
                own == actions_of(self.actions(), project_name@),
                are_entries(records(self.code_actions), entries@),
                n <= i <= entries@.len(),
                seen.finite(),
                seen.len() == n,
                forall|key: Seq<char>| #[trigger]
                    seen.contains(key) ==> own.contains_key(key) && exists|k: int|
                        0 <= k < i && (#[trigger] entries@[k]).0@ == key,
                forall|k: int|
                    0 <= k < i && own.contains_key((#[trigger] entries@[k]).0@) ==> seen.contains(
                        entries@[k].0@,
                    ),
            decreases entries@.len() - i,
        {
            assert(records(self.code_actions).contains_key(entries@[i as int].0@));
            if let Record::Action(action) = &entries[i].1 {
                if equal(action.project_name.as_str(), project_name) {
                    proof {
                        let key = entries@[i as int].0@;
                        if seen.contains(key) {
                            let k = choose|k: int| 0 <= k < i && (#[trigger] entries@[k]).0@ == key;
                            assert(entries@[k].0@ != entries@[i as int].0@);
                        }
                        seen = seen.insert(key);
                    }
                    n += 1;
                }
            }
            i += 1;
        }
        proof {
            assert forall|key: Seq<char>| #[trigger] own.dom().contains(key) implies seen.contains(
                key,
            ) by {
                assert(records(self.code_actions).contains_key(key));
                let k = choose|k: int|
                    0 <= k < entries@.len() && (#[trigger] entries@[k]).0@ == key;
                assert(own.contains_key(entries@[k].0@));
            }
            assert(seen =~= own.dom());
        }
        n
    }

    /// Answers a refresh of the code actions of a project with their number.
    pub fn refreshed_project(&self, project_name: &str) -> (res: Outcome)
        requires
            self.wf(),
        ensures
            tells_refresh(self.actions(), project_name@, res),
    {
        let count: usize = self.count_actions(project_name);
        let message = "Refreshed ".to_owned().concat(decimal(count as u64).as_str()).concat(
            " code actions for project '",
        ).concat(project_name).concat("'");
        let report = RefreshReport {
            status: "success".to_owned(),
            project: Some(project_name.to_owned()),
            action_count: count,
            message,
        };
        Outcome { reply: Ok(part_response(Content::Refresh(report))), notify: true, refresh: false }
    }

    /// Answers a refresh of the code actions of all projects with their number.
    pub fn refreshed_all(&self) -> (res: Outcome)
        requires
            self.wf(),
        ensures
            tells_refresh_of_all(self.actions(), res),
    {
        let total: usize = table_len(&self.code_actions);
        assert(records(self.code_actions).dom() =~= self.actions().dom());
        let message = "Refreshed code actions for all projects. Total: ".to_owned().concat(
            decimal(total as u64).as_str(),
        ).concat(" actions");
        let report = RefreshReport {
            status: "success".to_owned(),
            project: None,
            action_count: total,
            message,
        };
        Outcome {
            reply: Ok(part_response(Content::Refresh(report))),
            notify: false,
            refresh: false,
        }
    }

    /// Refreshes code actions. With the name of a project, what is known of that project is
    /// forgotten, and the project is to be checked next. Without a name, what is known of every
    /// project is forgotten, and all projects are to be updated next.
    pub fn refresh_code_actions(
        &mut self,
        context: &Context,
        project_name: Option<String>,
    ) -> (res: RefreshStart)
        requires
            old(self).wf(),
            context.wf(),
        ensures
            final(self).wf(),
            starts_refresh(*old(self), *final(self), context@, project_name, res),
    {
        let name = match project_name {
            None => {
                let roots = self.refresh_all_code_actions(context);
                return RefreshStart::UpdateAll { roots };
            },
            Some(name) => name,
        };
        self.last_project = Some(name.clone());
        match context.find_project_by_name(name.as_str()) {
            Some(root) => {
                let _ = self.auto_update_code_actions(context, root.as_str());
                RefreshStart::Check { project_name: name, root }
            },
            None => RefreshStart::Answer(
                refuse("Project '".to_owned().concat(name.as_str()).concat("' not found.")),
            ),
        }
    }
}

/// The answer tells how many code actions a project has after a refresh.
pub open spec fn tells_refresh(
    actions: Map<Seq<char>, CodeActionView>,
    project_name: Seq<char>,
    outcome: Outcome,
) -> bool {
    &&& outcome.notify
    &&& !outcome.refresh
    &&& outcome.reply matches Ok(result) && !result.is_error && result.content@.len() == 1 && {
        let count = actions_of(actions, project_name).len();
        &&& result.content@[0] matches Content::Refresh(report)
        &&& report.status@ == "success"@
        &&& report.project matches Some(own) && own@ == project_name
        &&& report.action_count == count
        &&& report.message@ == "Refreshed "@ + digits_of(count) + " code actions for project '"@
            + project_name + "'"@
    }
}

/// The answer tells how many code actions there are after a refresh of all projects.
pub open spec fn tells_refresh_of_all(
    actions: Map<Seq<char>, CodeActionView>,
    outcome: Outcome,
) -> bool {
    &&& !outcome.notify
    &&& !outcome.refresh
    &&& outcome.reply matches Ok(result) && !result.is_error && result.content@.len() == 1 && {
        let count = actions.len();
        &&& result.content@[0] matches Content::Refresh(report)
        &&& report.status@ == "success"@
        &&& report.project is None
        &&& report.action_count == count
        &&& report.message@ == "Refreshed code actions for all projects. Total: "@ + digits_of(
            count,
        ) + " actions"@
    }
}

/// How a refresh of code actions starts, of one project or of all.
pub open spec fn starts_refresh(
    before: DevToolsServer,
    after: DevToolsServer,
    projects: Map<Seq<char>, ProjectContextView>,
    asked: Option<String>,
    start: RefreshStart,
) -> bool {
    match asked {
        None => {
            &&& after.remembered() == before.remembered()
            &&& (after.actions() == Map::<Seq<char>, CodeActionView>::empty())
            &&& (after.problems() == Map::<Seq<char>, StoredDiagnosticView>::empty())
            &&& start matches RefreshStart::UpdateAll { roots } && are_roots(projects, roots@)
        },
        Some(name) => {
            &&& after.remembered() == Some(name)
            &&& match start {
                RefreshStart::Check { project_name: own, root } => {
                    &&& own == name
                    &&& is_named_root(projects, name@, root@)
                    &&& after.actions() == actions_without(before.actions(), name@)
                    &&& after.problems() == problems_without(before.problems(), normal_path(root@))
                },
                RefreshStart::UpdateAll { .. } => false,
                RefreshStart::Answer(outcome) => {
                    &&& forall|root: Seq<char>| !is_named_root(projects, name@, root)
                    &&& is_refusal(outcome, not_found_message(name@))
                    &&& after.keeps_tables(&before)
                },
            }
        },
    }
}

/// How the answer to a refresh starts.
#[derive(Debug)]
pub enum RefreshStart {
    /// The project with this root is to be checked.
    Check { project_name: String, root: String },
    /// The projects with these roots are to be updated, one after the other.
    UpdateAll { roots: Vec<String> },
    /// The request is answered at once.
    Answer(Outcome),
}

/// A request that names a project is followed by requests that do not: they are about the same
/// project, as long as nothing else is remembered in between.
pub proof fn law_named_project_is_remembered(
    before: DevToolsServer,
    after: DevToolsServer,
    later: DevToolsServer,
    last: DevToolsServer,
    projects: Map<Seq<char>, ProjectContextView>,
    projects_later: Map<Seq<char>, ProjectContextView>,
    asked: String,
    name: Result<String, ToolError>,
    name_later: Result<String, ToolError>,
)
    requires
        names_project(before, after, projects, Some(asked), name),
        later.remembered() == after.remembered(),
        names_project(later, last, projects_later, None, name_later),
    ensures
        name == Ok::<String, ToolError>(asked),
        name_later == Ok::<String, ToolError>(asked),
        last.remembered() == Some(asked),
{
}

/// An update of a project leaves none of its code actions, and all of those of other projects.
pub proof fn law_update_drops_actions(
    actions: Map<Seq<char>, CodeActionView>,
    project_name: Seq<char>,
    other: Seq<char>,
)
    requires
        other != project_name,
    ensures
        (actions_of(actions_without(actions, project_name), project_name) == Map::<
            Seq<char>,
            CodeActionView,
        >::empty()),
        actions_of(actions_without(actions, project_name), other) == actions_of(actions, other),
{
    assert(actions_of(actions_without(actions, project_name), project_name) =~= Map::<
        Seq<char>,
        CodeActionView,
    >::empty());
    assert(actions_of(actions_without(actions, project_name), other) =~= actions_of(
        actions,
        other,
    ));
}

/// The message has a place, whose id is the key.
pub open spec fn has_id(message: CompilerMessage, key: Seq<char>) -> bool {
    primary_span(message) matches Some(span) && diagnostic_id_of(span) == key
}

/// After an update of a project, the diagnostics that belong to it are those of the last check,
/// and a diagnostic of another project stays as it was, unless it has the id of one of them.
pub proof fn law_update_replaces_diagnostics(
    problems: Map<Seq<char>, StoredDiagnosticView>,
    root: Seq<char>,
    messages: Seq<CompilerMessage>,
    key: Seq<char>,
)
    ensures
        ({
            let after = problems_with(problems_without(problems, root), root, messages);
            &&& after.contains_key(key) && after[key].root == root ==> exists|i: int|
                0 <= i < messages.len() && has_id(#[trigger] messages[i], key)
                    && after[key].diagnostic == diagnostic_of(
                    (messages[i], primary_span(messages[i])->0),
                    Seq::empty(),
                )
            &&& problems.contains_key(key) && !belongs_to(problems[key], root) && (
            forall|i: int| 0 <= i < messages.len() ==> !has_id(#[trigger] messages[i], key))
                ==> after.contains_key(key) && after[key] == problems[key]
            &&& (exists|i: int| 0 <= i < messages.len() && has_id(#[trigger] messages[i], key))
                ==> after.contains_key(key) && after[key].root == root
        }),
{
    let kept = problems_without(problems, root);
    lemma_problems_with(kept, root, messages, key);
}

/// The check of one of several projects: the normal form of its root, and the messages of the
/// compiler, if the check succeeds.
pub struct ProjectCheck {
    pub root: Seq<char>,
    pub messages: Option<Seq<CompilerMessage>>,
}

/// The diagnostics after updates of several projects, one after the other.
pub open spec fn problems_updated(
    problems: Map<Seq<char>, StoredDiagnosticView>,
    checks: Seq<ProjectCheck>,
) -> Map<Seq<char>, StoredDiagnosticView>
    decreases checks.len(),
{
    if checks.len() == 0 {
        problems
    } else {
        let kept = problems_without(
            problems_updated(problems, checks.drop_last()),
            checks.last().root,
        );
        match checks.last().messages {
            Some(messages) => problems_with(kept, checks.last().root, messages),
            None => kept,
        }
    }
}

/// The check gave a message with the id.
pub open spec fn gave(check: ProjectCheck, key: Seq<char>) -> bool {
    check.messages matches Some(messages) && exists|i: int|
        0 <= i < messages.len() && has_id(#[trigger] messages[i], key)
}

/// The diagnostic is that of a message of the check with the id.
pub open spec fn stems_from(
    problem: StoredDiagnosticView,
    check: ProjectCheck,
    key: Seq<char>,
) -> bool {
    problem.root == check.root && (check.messages matches Some(messages) && exists|i: int|
        0 <= i < messages.len() && has_id(#[trigger] messages[i], key) && problem.diagnostic
            == diagnostic_of((messages[i], primary_span(messages[i])->0), Seq::empty()))
}

/// What there is under an id after updates of several projects.
pub open spec fn keeps_checks(
    after: Map<Seq<char>, StoredDiagnosticView>,
    checks: Seq<ProjectCheck>,
    key: Seq<char>,
) -> bool {
    &&& after.contains_key(key) ==> exists|i: int|
        0 <= i < checks.len() && stems_from(after[key], #[trigger] checks[i], key)
    &&& (exists|i: int| 0 <= i < checks.len() && gave(#[trigger] checks[i], key))
        ==> after.contains_key(key)
}

/// No two of the checks are of the same project.
pub open spec fn roots_differ(checks: Seq<ProjectCheck>) -> bool {
    forall|i: int, j: int|
        0 <= i < j < checks.len() ==> (#[trigger] checks[i]).root != (#[trigger] checks[j]).root
}

proof fn lemma_keeps_checks(checks: Seq<ProjectCheck>, key: Seq<char>)
    requires
        roots_differ(checks),
    ensures
        keeps_checks(problems_updated(Map::empty(), checks), checks, key),
    decreases checks.len(),
{
    if checks.len() > 0 {
        let n = checks.len() - 1;
        let rest = checks.drop_last();
        let last = checks[n];
        assert forall|i: int| 0 <= i < n implies rest[i] == #[trigger] checks[i] by {}
        assert(roots_differ(rest)) by {
            assert forall|i: int, j: int| 0 <= i < j < rest.len() implies (
            #[trigger] rest[i]).root != (#[trigger] rest[j]).root by {
                assert(rest[i] == checks[i] && rest[j] == checks[j]);
            }
        }
        lemma_keeps_checks(rest, key);
        let before = problems_updated(Map::empty(), rest);
        let kept = problems_without(before, last.root);
        let after = problems_updated(Map::empty(), checks);
        if before.contains_key(key) {
            let i = choose|i: int|
                0 <= i < rest.len() && stems_from(before[key], #[trigger] rest[i], key);
            assert(checks[i] == rest[i]);
            assert(checks[i].root != checks[n].root);
            assert(kept.contains_key(key) && kept[key] == before[key]);
        }
        if let Some(messages) = last.messages {
            lemma_problems_with(kept, last.root, messages, key);
            if gave(last, key) {
                assert(stems_from(after[key], checks[n], key));
            } else if after.contains_key(key) {
                assert(kept.contains_key(key));
                assert(before.contains_key(key));
            }
        }
        if exists|i: int| 0 <= i < checks.len() && gave(#[trigger] checks[i], key) {
            let i = choose|i: int| 0 <= i < checks.len() && gave(#[trigger] checks[i], key);
            if i < n {
                assert(gave(rest[i], key));
            }
        }
    }
}

/// A refresh of all projects forgets every diagnostic and then updates each project. What is there
/// afterwards under an id is the diagnostic of a message that the check of one of the projects
/// gave with it, and every message that has a place is there under its id; where only one of the
/// checks gave messages with that id, the diagnostic is one of that check.
pub proof fn law_refresh_of_all_keeps_diagnostics(
    checks: Seq<ProjectCheck>,
    j: int,
    key: Seq<char>,
)
    requires
        roots_differ(checks),
        0 <= j < checks.len(),
    ensures
        ({
            let after = problems_updated(Map::empty(), checks);
            &&& keeps_checks(after, checks, key)
            &&& gave(checks[j], key) && (forall|i: int|
                0 <= i < checks.len() && i != j ==> !gave(#[trigger] checks[i], key))
                ==> stems_from(after[key], checks[j], key)
        }),
{
    lemma_keeps_checks(checks, key);
    let after = problems_updated(Map::empty(), checks);
    if gave(checks[j], key) {
        let i = choose|i: int|
            0 <= i < checks.len() && stems_from(after[key], #[trigger] checks[i], key);
        assert(gave(checks[i], key));
    }
}

proof fn lemma_problems_with(
    kept: Map<Seq<char>, StoredDiagnosticView>,
    root: Seq<char>,
    messages: Seq<CompilerMessage>,
    key: Seq<char>,
)
    ensures
        ({
            let after = problems_with(kept, root, messages);
            &&& (exists|i: int| 0 <= i < messages.len() && has_id(#[trigger] messages[i], key))
                ==> {
                &&& after.contains_key(key)
                &&& after[key].root == root
                &&& exists|i: int|
                    0 <= i < messages.len() && has_id(#[trigger] messages[i], key)
                        && after[key].diagnostic == diagnostic_of(
                        (messages[i], primary_span(messages[i])->0),
                        Seq::empty(),
                    )
            }
            &&& (forall|i: int| 0 <= i < messages.len() ==> !has_id(#[trigger] messages[i], key))
                ==> after.contains_key(key) == kept.contains_key(key) && (kept.contains_key(key)
                ==> after[key] == kept[key])
        }),
    decreases messages.len(),
{
    if messages.len() > 0 {
        let rest = messages.drop_last();
        let n = messages.len() - 1;
        lemma_problems_with(kept, root, rest, key);
        if has_id(messages[n], key) {
            assert(0 <= n < messages.len() && has_id(messages[n], key));
        } else {
            assert forall|i: int| 0 <= i < rest.len() implies rest[i] == #[trigger] messages[i] by {}
            if exists|i: int| 0 <= i < messages.len() && has_id(#[trigger] messages[i], key) {
                let i = choose|i: int|
                    0 <= i < messages.len() && has_id(#[trigger] messages[i], key);
                assert(has_id(rest[i], key));
                let after = problems_with(kept, root, rest);
                let j = choose|j: int|
                    0 <= j < rest.len() && has_id(#[trigger] rest[j], key) && after[key].diagnostic
                        == diagnostic_of((rest[j], primary_span(rest[j])->0), Seq::empty());
                assert(messages[j] == rest[j]);
            } else {
                assert forall|i: int| 0 <= i < rest.len() implies !has_id(
                    #[trigger] rest[i],
                    key,
                ) by {
                    assert(messages[i] == rest[i]);
                }
            }
        }
    }
}

/// A preview keeps the renaming under the id that it reports, with the very edit that was given, the
/// project and both names; every other action stays. It reports every file that the edit changes.
pub proof fn law_preview_keeps_the_edit(
    before: DevToolsServer,
    after: DevToolsServer,
    project_name: Seq<char>,
    symbol_name: Seq<char>,
    new_name: Seq<char>,
    edit: WorkspaceEdit,
    outcome: Outcome,
)
    requires
        previews(before, after, project_name, symbol_name, new_name, edit@, outcome),
    ensures
        outcome.notify && !outcome.refresh,
        after.problems() == before.problems(),
        after.remembered() == before.remembered(),
        outcome.reply matches Ok(result) && !result.is_error && result.content@.len() == 1 && {
            &&& result.content@[0] matches Content::Rename(report)
            &&& report.action_id matches Some(id) && {
                let kept = after.actions()[id@];
                &&& after.actions().contains_key(id@)
                &&& kept.id == id@
                &&& kept.workspace_edit == Some(edit@)
                &&& kept.project_name == project_name
                &&& kept.title == "Rename '"@ + symbol_name + "' to '"@ + new_name + "'"@
                &&& kept.description == "Rename symbol '"@ + symbol_name + "' to '"@ + new_name
                    + "'"@
                &&& kept.kind == Some("refactor"@)
                &&& after.actions().remove(id@) == before.actions().remove(id@)
                &&& occurs(report.message@, id@)
            }
            &&& report.status@ == "preview"@
            &&& report.message@ == "Created rename preview. Use execute_code_action('"@
                + report.action_id->0@ + "') to apply changes."@
            &&& report.symbol_name@ == symbol_name
            &&& report.new_name@ == new_name
            &&& match edit.changes {
                Some(files) => {
                    &&& report.changes_count == files@.len()
                    &&& report.files_affected@.len() == files@.len()
                    &&& forall|i: int|
                        0 <= i < files@.len() ==> (#[trigger] report.files_affected@[i])@
                            == files@[i].uri@
                },
                None => report.changes_count == 0 && report.files_affected@.len() == 0,
            }
        },
{
    let id = rename_id(symbol_name, new_name);
    assert(after.actions().remove(id) =~= before.actions().remove(id));
    if let Ok(result) = outcome.reply {
        if let Content::Rename(report) = result.content@[0] {
            law_occurrence_is_a_part(report.message@, id);
            assert(report.message@ == ("Created rename preview. Use execute_code_action('"@) + id
                + ("') to apply changes."@));
            let listed = texts(report.files_affected@);
            assert(listed.len() == report.files_affected@.len());
            law_changed_files_are_all_listed(edit);
            if let Some(files) = edit.changes {
                assert forall|i: int| 0 <= i < files@.len() implies (
                #[trigger] report.files_affected@[i])@ == files@[i].uri@ by {
                    assert(listed[i] == report.files_affected@[i]@);
                    assert(changed_files(edit@)[i] == files@[i].uri@);
                }
            }
        }
    }
}

/// What an action is for stands in its id as it is, behind the operation, where it holds no space, no
/// colon and no percent sign.
pub proof fn law_plain_ids_read_plainly(operation: Seq<char>, target: Seq<char>)
    requires
        !target.contains(' '),
        !target.contains(':'),
        !target.contains('%'),
    ensures
        action_id_of(operation, target) == operation + "_"@ + target,
{
    lemma_plain_escaped(target);
}

proof fn lemma_plain_escaped(text: Seq<char>)
    requires
        !text.contains(' '),
        !text.contains(':'),
        !text.contains('%'),
    ensures
        escaped(text) == text,
    decreases text.len(),
{
    if text.len() > 0 {
        let rest = text.skip(1);
        assert(text.contains(text[0]));
        assert forall|c: char| #[trigger] rest.contains(c) implies text.contains(c) by {
            let i = choose|i: int| 0 <= i < rest.len() && rest[i] == c;
            assert(text[i + 1] == c);
        }
        lemma_plain_escaped(rest);
        assert(escaped(text) =~= text);
    }
}

/// A renaming is told by the old name, the new one, and `_to_` between them, as long as neither `_to`
/// nor the sign of a mark stands in the old name.
pub proof fn law_plain_renamings_read_plainly(symbol_name: Seq<char>, new_name: Seq<char>)
    requires
        !occurs(symbol_name, "_to"@),
        !symbol_name.contains('~'),
    ensures
        rename_target(symbol_name, new_name) == symbol_name + "_to_"@ + new_name,
    decreases symbol_name.len(),
{
    reveal_strlit("_to");
    if symbol_name.len() > 0 {
        let rest = symbol_name.skip(1);
        assert(symbol_name.contains(symbol_name[0]));
        if rest.contains('~') {
            let i = choose|i: int| 0 <= i < rest.len() && rest[i] == '~';
            assert(symbol_name[i + 1] == '~');
        }
        if occurs(rest, "_to"@) {
            let i = choose|i: int| occurs_at(rest, "_to"@, i);
            assert(symbol_name.subrange(i + 1, i + 4) =~= rest.subrange(i, i + 3));
            assert(occurs_at(symbol_name, "_to"@, i + 1));
        }
        if starts_separator(symbol_name) {
            assert(symbol_name.subrange(0, 3) =~= "_to"@);
            assert(occurs_at(symbol_name, "_to"@, 0));
        }
        law_plain_renamings_read_plainly(rest, new_name);
        assert(separable(rest) =~= rest) by {
            assert(rename_target(rest, new_name).take(rest.len() as int) =~= rest);
            assert(rename_target(rest, new_name).len() == separable(rest).len() + "_to_"@.len()
                + new_name.len());
            assert(rename_target(rest, new_name).take(separable(rest).len() as int)
                =~= separable(rest));
        }
        assert(separable(symbol_name) =~= symbol_name);
    }
}

/// The start of an update forgets the actions with the name of the project and the diagnostics
/// that its checks gave, and no others; for a project that is not loaded it forgets nothing.
pub proof fn law_update_forgets_its_project(
    before: DevToolsServer,
    after: DevToolsServer,
    projects: Map<Seq<char>, ProjectContextView>,
    root: Seq<char>,
    res: Result<(), ToolError>,
    key: Seq<char>,
)
    requires
        starts_update(before, after, projects, root, res),
    ensures
        res is Ok <==> projects.contains_key(normal_path(root)),
        res is Ok ==> {
            let name = match file_name_of(root) {
                Some(name) => name,
                None => "unknown"@,
            };
            &&& after.actions().contains_key(key) <==> before.actions().contains_key(key)
                && before.actions()[key].project_name != name
            &&& after.actions().contains_key(key) ==> after.actions()[key] == before.actions()[key]
            &&& after.problems().contains_key(key) <==> before.problems().contains_key(key)
                && before.problems()[key].root != normal_path(root)
            &&& after.problems().contains_key(key) ==> after.problems()[key]
                == before.problems()[key]
        },
        res is Err ==> after.actions() == before.actions() && after.problems()
            == before.problems(),
        res matches Err(error) ==> error.kind == ErrorKind::Internal && error.message@
            == "Project not found"@,
{
}

proof fn lemma_last_with_id(
    kept: Map<Seq<char>, StoredDiagnosticView>,
    root: Seq<char>,
    messages: Seq<CompilerMessage>,
    k: int,
)
    requires
        0 <= k < messages.len(),
        primary_span(messages[k]) is Some,
        forall|j: int|
            k < j < messages.len() ==> !has_id(
                #[trigger] messages[j],
                diagnostic_id_of(primary_span(messages[k])->0),
            ),
    ensures
        ({
            let span = primary_span(messages[k])->0;
            let after = problems_with(kept, root, messages);
            let id = diagnostic_id_of(span);
            &&& after.contains_key(id)
            &&& after[id].root == root
            &&& after[id].diagnostic == diagnostic_of((messages[k], span), Seq::empty())
        }),
    decreases messages.len(),
{
    let n = messages.len() - 1;
    if k < n {
        let rest = messages.drop_last();
        assert(rest[k] == messages[k]);
        assert forall|j: int| k < j < rest.len() implies !has_id(
            #[trigger] rest[j],
            diagnostic_id_of(primary_span(rest[k])->0),
        ) by {
            assert(rest[j] == messages[j]);
        }
        lemma_last_with_id(kept, root, rest, k);
        assert(!has_id(messages[n], diagnostic_id_of(primary_span(messages[k])->0)));
    }
}

/// The end of an update keeps, of every message that has a place, what it says and where, for the
/// project that was checked, under an id made of the file, the line and the column; where several
/// messages have one id, it is the last of them. The message that goes out names the project.
pub proof fn law_checked_messages_are_kept(
    before: DevToolsServer,
    after: DevToolsServer,
    root: Seq<char>,
    messages: Vec<CompilerMessage>,
    sent: Option<McpNotification>,
    k: int,
    span: Span,
)
    requires
        ends_update(before, after, root, Ok(messages), sent),
        0 <= k < messages@.len(),
        primary_span(messages@[k]) == Some(span),
        forall|j: int|
            k < j < messages@.len() ==> !has_id(#[trigger] messages@[j], diagnostic_id_of(span)),
    ensures
        ({
            let id = "diagnostic_"@ + replaced(replaced(span.file_name@, "\\"@, "_"@), "/"@, "_"@)
                + "_"@ + digits_of(span.line_start as nat) + "_line_"@ + digits_of(
                span.column_start as nat,
            );
            let kept = after.problems()[id];
            &&& after.problems().contains_key(id)
            &&& kept.root == normal_path(root)
            &&& kept.diagnostic.file_path == span.file_name@
            &&& kept.diagnostic.line == span.line_start
            &&& kept.diagnostic.character == span.column_start
            &&& kept.diagnostic.severity == messages@[k].level@
            &&& kept.diagnostic.message == messages@[k].rendered@
            &&& kept.diagnostic.available_fixes.len() == 0
        }),
        sent matches Some(McpNotification::CodeActionsUpdated { project, action_count }) && project@
            == root && action_count == 0,
{
    lemma_last_with_id(before.problems(), normal_path(root), messages@, k);
}

/// A request is about the project that it names, else about the one that was used last, and that
/// name is remembered. It is answered at once exactly where no project of that name is loaded.
pub proof fn law_request_finds_its_project(
    before: DevToolsServer,
    after: DevToolsServer,
    context: Context,
    asked: Option<String>,
    start: Start,
    name: String,
)
    requires
        selects(before, after, context, asked, start),
        context.wf(),
        asked == Some(name) || (asked is None && before.remembered() == Some(name)),
    ensures
        after.remembered() == Some(name),
        match start {
            Start::Ready { project_name, root } => {
                &&& project_name == name
                &&& context@.contains_key(normal_path(root@))
                &&& context@[normal_path(root@)].project.root == root@
                &&& file_name_of(root@) == Some(name@)
            },
            Start::Answer(outcome) => {
                &&& forall|key: Seq<char>| #[trigger]
                    context@.contains_key(key) ==> file_name_of(context@[key].project.root) != Some(
                        name@,
                    )
                &&& !outcome.notify && !outcome.refresh
                &&& outcome.reply matches Ok(result) && result.is_error && result.content@.len() == 1
                    && (result.content@[0] matches Content::Text(text) && text@ == "Project '"@
                    + name@ + "' not found."@)
            },
            Start::Unnamed => false,
        },
{
    if let Start::Answer(_) = start {
        assert forall|key: Seq<char>| #[trigger] context@.contains_key(key) implies file_name_of(
            context@[key].project.root,
        ) != Some(name@) by {
            let root = context@[key].project.root;
            assert(records(context.projects).contains_key(key));
            assert(normal_path(root) == key);
            assert(!is_named_root(context@, name@, root));
        }
    }
}

/// A request that names no project, where none was used before, is about a loaded one, which is
/// remembered; where none is loaded, it is refused and nothing is remembered.
pub proof fn law_request_takes_any_project(
    before: DevToolsServer,
    after: DevToolsServer,
    context: Context,
    start: Start,
)
    requires
        selects(before, after, context, None, start),
        before.remembered() is None,
        context.all_named(),
    ensures
        match start {
            Start::Ready { project_name, root } => {
                &&& after.remembered() == Some(project_name)
                &&& context@.contains_key(normal_path(root@))
                &&& file_name_of(root@) == Some(project_name@)
            },
            Start::Answer(outcome) => {
                &&& after.remembered() is None
                &&& forall|key: Seq<char>| !#[trigger] context@.contains_key(key)
                &&& outcome.reply matches Err(error) && error.kind == ErrorKind::InvalidParams
                    && error.message@
                    == "No project_name provided and no projects available. Please use manage_projects with add_project_path parameter to load a project first."@
            },
            Start::Unnamed => false,
        },
{
    let name = choose|name: Result<String, ToolError>| #[trigger]
        names_project(before, after, context@, None, name) && starts(context@, name, start);
    if let Start::Answer(_) = start {
        if let Ok(name) = name {
            let root = choose|root: Seq<char>| is_named_root(context@, name@, root);
            assert(is_named_root(context@, name@, root));
        }
        assert forall|key: Seq<char>| !#[trigger] context@.contains_key(key) by {
            assert(!context@.dom().contains(key));
        }
    }
}

/// A refresh without a project forgets everything and hands out the root of every loaded project
/// once; one with a project forgets what is known of that project alone, or is refused where no
/// project of that name is loaded.
pub proof fn law_refresh_covers_what_it_names(
    before: DevToolsServer,
    after: DevToolsServer,
    projects: Map<Seq<char>, ProjectContextView>,
    asked: Option<String>,
    start: RefreshStart,
    key: Seq<char>,
)
    requires
        starts_refresh(before, after, projects, asked, start),
    ensures
        asked is None ==> {
            &&& !after.actions().contains_key(key)
            &&& !after.problems().contains_key(key)
            &&& start matches RefreshStart::UpdateAll { roots } && {
                &&& projects.contains_key(key) <==> exists|i: int|
                    0 <= i < roots@.len() && normal_path((#[trigger] roots@[i])@) == key
                &&& forall|i: int, j: int|
                    0 <= i < j < roots@.len() ==> (#[trigger] roots@[i])@ != (
                    #[trigger] roots@[j])@
            }
        },
        asked matches Some(name) ==> {
            &&& after.remembered() == Some(name)
            &&& match start {
                RefreshStart::Check { project_name, root } => {
                    &&& project_name == name
                    &&& projects.contains_key(normal_path(root@))
                    &&& file_name_of(root@) == Some(name@)
                    &&& after.actions().contains_key(key) <==> before.actions().contains_key(key)
                        && before.actions()[key].project_name != name@
                    &&& after.problems().contains_key(key) <==> before.problems().contains_key(key)
                        && before.problems()[key].root != normal_path(root@)
                },
                RefreshStart::Answer(_) => {
                    &&& after.actions() == before.actions()
                    &&& after.problems() == before.problems()
                    &&& !(projects.contains_key(key) && normal_path(projects[key].project.root)
                        == key && file_name_of(projects[key].project.root) == Some(name@))
                },
                RefreshStart::UpdateAll { .. } => false,
            }
        },
{
    if asked is None {
        if let RefreshStart::UpdateAll { roots } = start {
            assert forall|i: int, j: int| 0 <= i < j < roots@.len() implies (
            #[trigger] roots@[i])@ != (#[trigger] roots@[j])@ by {
                assert(normal_path(roots@[i]@) != normal_path(roots@[j]@));
            }
        }
    }
    if let Some(name) = asked {
        if let RefreshStart::Answer(_) = start {
            assert(!is_named_root(projects, name@, projects[key].project.root));
        }
    }
}

/// A refresh reports as many code actions as there are with the name of the project, or in all.
pub proof fn law_refresh_counts_actions(
    actions: Map<Seq<char>, CodeActionView>,
    project_name: Seq<char>,
    of_one: Outcome,
    of_all: Outcome,
)
    requires
        tells_refresh(actions, project_name, of_one),
        tells_refresh_of_all(actions, of_all),
    ensures
        of_one.reply matches Ok(result) && !result.is_error && result.content@.len() == 1 && (
        result.content@[0] matches Content::Refresh(report) && report.action_count
            == actions.dom().filter(
            |key: Seq<char>| actions[key].project_name == project_name,
        ).len() && (report.project matches Some(own) && own@ == project_name) && report.status@
            == "success"@ && report.message@ == "Refreshed "@ + digits_of(
            report.action_count as nat,
        ) + " code actions for project '"@ + project_name + "'"@),
        of_one.notify && !of_one.refresh && !of_all.notify && !of_all.refresh,
        of_all.reply matches Ok(result) && !result.is_error && result.content@.len() == 1 && (
        result.content@[0] matches Content::Refresh(report) && report.action_count
            == actions.dom().len() && report.project is None && report.status@ == "success"@
            && report.message@ == "Refreshed code actions for all projects. Total: "@ + digits_of(
            report.action_count as nat,
        ) + " actions"@),
{
    assert(actions_of(actions, project_name).dom() =~= actions.dom().filter(
        |key: Seq<char>| actions[key].project_name == project_name,
    ));
}

/// A check that fails is not told of, and leaves the diagnostics as they are. One that does not keeps
/// a diagnostic under every id that it does not give itself.
pub proof fn law_update_keeps_the_other_diagnostics(
    before: DevToolsServer,
    after: DevToolsServer,
    root: Seq<char>,
    messages: Result<Vec<CompilerMessage>, String>,
    sent: Option<McpNotification>,
    key: Seq<char>,
)
    requires
        ends_update(before, after, root, messages, sent),
    ensures
        messages is Err ==> sent is None && after.problems() == before.problems(),
        messages matches Ok(given) ==> ((forall|i: int|
            0 <= i < given@.len() ==> !has_id(#[trigger] given@[i], key)) ==> (
        after.problems().contains_key(key) <==> before.problems().contains_key(key)) && (
        after.problems().contains_key(key) ==> after.problems()[key] == before.problems()[key])),
{
    if let Ok(given) = messages {
        if forall|i: int| 0 <= i < given@.len() ==> !has_id(#[trigger] given@[i], key) {
            lemma_other_ids(before.problems(), normal_path(root), given@, key);
        }
    }
}

proof fn lemma_other_ids(
    kept: Map<Seq<char>, StoredDiagnosticView>,
    root: Seq<char>,
    messages: Seq<CompilerMessage>,
    key: Seq<char>,
)
    requires
        forall|i: int| 0 <= i < messages.len() ==> !has_id(#[trigger] messages[i], key),
    ensures
        problems_with(kept, root, messages).contains_key(key) <==> kept.contains_key(key),
        kept.contains_key(key) ==> problems_with(kept, root, messages)[key] == kept[key],
    decreases messages.len(),
{
    if messages.len() > 0 {
        let rest = messages.drop_last();
        assert forall|i: int| 0 <= i < rest.len() implies !has_id(#[trigger] rest[i], key) by {
            assert(rest[i] == messages[i]);
        }
        lemma_other_ids(kept, root, rest, key);
        assert(!has_id(messages[messages.len() - 1], key));
    }
}

/// A message gives the diagnostic of its place, whose id is the file with underscores for separators,
/// and then the line and the column.
pub proof fn law_diagnostic_id_tells_the_place(message: CompilerMessage, span: Span, id: Seq<char>)
    requires
        primary_span(message) == Some(span),
    ensures
        has_id(message, id) <==> id == "diagnostic_"@ + span.file_name@.map_values(
            |c: char| if c == '\\' {
                '_'
            } else {
                c
            },
        ).map_values(
            |c: char| if c == '/' {
                '_'
            } else {
                c
            },
        ) + "_"@ + digits_of(span.line_start as nat) + "_line_"@ + digits_of(
            span.column_start as nat,
        ),
{
    reveal_strlit("\\");
    reveal_strlit("/");
    reveal_strlit("_");
    assert("\\"@ =~= seq!['\\']);
    assert("/"@ =~= seq!['/']);
    assert("_"@ =~= seq!['_']);
    law_character_is_replaced_everywhere(span.file_name@, '\\', '_');
    law_character_is_replaced_everywhere(
        replaced(span.file_name@, "\\"@, "_"@),
        '/',
        '_',
    );
}

/// In an id a space stands as `%20` and a path separator as `%3A%3A`, and a percent sign that would
/// read as one of these, or as itself, as `%25`; what follows is written on its own. Every other
/// character stands for itself.
pub proof fn law_escapes_stand_for_spaces_and_separators(c: char, rest: Seq<char>)
    ensures
        escaped(Seq::empty()).len() == 0,
        escaped(seq![' '] + rest) == seq!['%', '2', '0'] + escaped(rest),
        escaped(seq![':', ':'] + rest) == seq!['%', '3', 'A', '%', '3', 'A'] + escaped(rest),
        escaped(seq!['%', '2', '0'] + rest) == seq!['%', '2', '5'] + escaped(seq!['2', '0'] + rest),
        escaped(seq!['%', '2', '5'] + rest) == seq!['%', '2', '5'] + escaped(seq!['2', '5'] + rest),
        escaped(seq!['%', '3', 'A'] + rest) == seq!['%', '2', '5'] + escaped(seq!['3', 'A'] + rest),
        c != ' ' && c != ':' && c != '%' ==> escaped(seq![c] + rest) == seq![c] + escaped(rest),
        rest.len() == 0 || rest[0] != ':' ==> escaped(seq![':'] + rest) == seq![':'] + escaped(
            rest,
        ),
        rest.len() == 0 || (rest[0] != '2' && rest[0] != '3') ==> escaped(seq!['%'] + rest)
            == seq!['%'] + escaped(rest),
{
    assert((seq![' '] + rest).skip(1) =~= rest);
    assert((seq![':', ':'] + rest).skip(2) =~= rest);
    assert((seq!['%', '2', '0'] + rest).skip(1) =~= seq!['2', '0'] + rest);
    assert((seq!['%', '2', '5'] + rest).skip(1) =~= seq!['2', '5'] + rest);
    assert((seq!['%', '3', 'A'] + rest).skip(1) =~= seq!['3', 'A'] + rest);
    assert((seq![c] + rest).skip(1) =~= rest);
    assert((seq![':'] + rest).skip(1) =~= rest);
    assert((seq!['%'] + rest).skip(1) =~= rest);
}

/// What an action is for stands in its id without spaces and path separators. It stands there unless
/// there is nothing to it, and starts with a colon only where it starts with one itself.
#[verifier::spinoff_prover]
#[verifier::rlimit(30)]
pub proof fn law_ids_hold_no_spaces_and_separators(target: Seq<char>)
    ensures
        !escaped(target).contains(' '),
        !occurs(escaped(target), "::"@),
        target.len() > 0 && target[0] != ':' ==> escaped(target)[0] != ':',
        target.len() > 0 ==> escaped(target).len() > 0,
    decreases target.len(),
{
    reveal_strlit("::");
    let whole = escaped(target);
    if target.len() > 0 {
        let (head, n) = escape_of(target);
        let rest = target.skip(n);
        let tail = escaped(rest);
        law_ids_hold_no_spaces_and_separators(rest);
        assert(whole == head + tail);
        if whole.contains(' ') {
            let i = choose|i: int| 0 <= i < whole.len() && whole[i] == ' ';
            if i >= head.len() {
                assert(tail[i - head.len()] == ' ');
            }
        }
        if occurs(whole, "::"@) {
            let i = choose|i: int| occurs_at(whole, "::"@, i);
            let pair = whole.subrange(i, i + 2);
            assert(pair[0] == ':' && pair[1] == ':');
            assert(whole[i] == ':' && whole[i + 1] == ':');
            if i >= head.len() {
                let j = i - head.len();
                assert(tail.subrange(j, j + 2) =~= pair);
                assert(occurs_at(tail, "::"@, j));
            } else {
                assert(head[i] == ':');
                assert(head.len() == 1 && target[0] == ':' && n == 1);
                assert(i == 0 && whole[1] == tail[0]);
                assert(tail[0] == ':');
                assert(rest.len() > 0);
                assert(rest[0] == target[1]);
                assert(rest[0] == ':');
            }
        }
    } else if occurs(whole, "::"@) {
        let i = choose|i: int| occurs_at(whole, "::"@, i);
        assert("::"@.len() == 2);
    }
}

/// In the old name of a renaming, what could be read as the separator is marked by `~1` for its first
/// sign, and what could be read as such a mark by `~0`; every other sign stands for itself.
pub proof fn law_separators_are_marked(c: char, rest: Seq<char>)
    ensures
        separable(Seq::empty()).len() == 0,
        separable(seq!['_', 't', 'o']) == seq!['~', '1', 't', 'o'],
        separable(seq!['_', 't', 'o', '_'] + rest) == seq!['~', '1'] + separable(
            seq!['t', 'o', '_'] + rest,
        ),
        separable(seq!['~', '0'] + rest) == seq!['~', '0'] + separable(seq!['0'] + rest),
        separable(seq!['~', '1'] + rest) == seq!['~', '0'] + separable(seq!['1'] + rest),
        c != '_' && c != '~' ==> separable(seq![c] + rest) == seq![c] + separable(rest),
        rest.len() == 0 || rest[0] != 't' ==> separable(seq!['_'] + rest) == seq!['_'] + separable(
            rest,
        ),
        rest.len() == 0 || (rest[0] != '0' && rest[0] != '1') ==> separable(seq!['~'] + rest)
            == seq!['~'] + separable(rest),
{
    assert((seq!['_', 't', 'o', '_'] + rest).skip(1) =~= seq!['t', 'o', '_'] + rest);
    assert((seq!['~', '0'] + rest).skip(1) =~= seq!['0'] + rest);
    assert((seq!['~', '1'] + rest).skip(1) =~= seq!['1'] + rest);
    assert((seq![c] + rest).skip(1) =~= rest);
    assert((seq!['_'] + rest).skip(1) =~= rest);
    assert((seq!['~'] + rest).skip(1) =~= rest);
    let name = seq!['_', 't', 'o'];
    assert(name.skip(1) =~= seq!['t', 'o']);
    assert(seq!['t', 'o'].skip(1) =~= seq!['o']);
    assert(seq!['o'].skip(1) =~= Seq::<char>::empty());
    assert(separable(Seq::<char>::empty()) =~= Seq::<char>::empty());
    assert(separable(seq!['o']) =~= seq!['o']);
    assert(separable(seq!['t', 'o']) =~= seq!['t', 'o']);
    assert(separable(name) =~= seq!['~', '1', 't', 'o']);
}

/// Where the tables are kept, every code action and every diagnostic is there as it was, and there are
/// no others.
pub proof fn law_kept_tables_hold_the_same(
    before: DevToolsServer,
    after: DevToolsServer,
    key: Seq<char>,
)
    requires
        after.keeps_tables(&before),
    ensures
        after.actions().contains_key(key) <==> before.actions().contains_key(key),
        after.actions().contains_key(key) ==> after.actions()[key] == before.actions()[key],
        after.problems().contains_key(key) <==> before.problems().contains_key(key),
        after.problems().contains_key(key) ==> after.problems()[key] == before.problems()[key],
{
}

}
