//! Code actions and diagnostics on offer: their listings, and the execution of an action.
use crate::actions::{copy_text, CodeAction, CodeActionView, DiagnosticView, DiagnosticWithFixes};
use crate::context::{is_named_root, Context};
use crate::paths::{file_name_of, normal_path, opt_text};
use crate::reply::{
    internal_error, invalid_params, is_failure, is_refusal, is_text, part_response, refuse,
    text_response, ActionSummary, Content, ErrorKind, Outcome, ToolError, ToolResult,
};
use crate::server::{law_preview_keeps_the_edit, previews, rename_action, DevToolsServer};
use crate::store::{
    are_entries, records, table_entries, table_get, table_remove, ProjectContextView, Record,
    RecordView, StoredDiagnosticView,
};
use crate::text::{chars_of, decimal, digits_of, equal, starts_with, string_of};
use crate::workspace::{law_edit_is_known_by_what_it_says, WorkspaceEdit, WorkspaceEditView};
use vstd::prelude::*;

verus! {

/// The summary is that of the action.
pub open spec fn summarizes(summary: ActionSummary, action: CodeActionView) -> bool {
    &&& summary.id@ == action.id
    &&& summary.title@ == action.title
    &&& summary.description@ == action.description
    &&& opt_text(summary.kind) == action.kind
    &&& summary.project_name@ == action.project_name
}

/// The summaries are those of the actions, each once.
pub open spec fn are_summaries(
    actions: Map<Seq<char>, CodeActionView>,
    summaries: Seq<ActionSummary>,
) -> bool {
    &&& forall|i: int|
        0 <= i < summaries.len() ==> actions.contains_key((#[trigger] summaries[i]).id@)
            && summarizes(summaries[i], actions[summaries[i].id@])
    &&& forall|i: int, j: int|
        0 <= i < j < summaries.len() ==> (#[trigger] summaries[i]).id@ != (
        #[trigger] summaries[j]).id@
    &&& forall|key: Seq<char>| #[trigger]
        actions.contains_key(key) ==> exists|i: int|
            0 <= i < summaries.len() && (#[trigger] summaries[i]).id@ == key
}

/// The answer lists the code actions, or says that there are none.
pub open spec fn lists_actions(
    actions: Map<Seq<char>, CodeActionView>,
    result: ToolResult,
) -> bool {
    if actions.dom() == Set::<Seq<char>>::empty() {
        is_text(result, false, "No code actions available."@)
    } else {
        &&& !result.is_error
        &&& result.content@.len() == 1
        &&& result.content@[0] matches Content::Actions(summaries)
        &&& are_summaries(actions, summaries@)
    }
}

/// A code action that is to be applied, or the answer where it cannot be.
#[derive(Debug)]
pub enum TakenAction {
    Apply { action: CodeAction, edit: WorkspaceEdit },
    Answer(ToolResult),
}

/// A code action is taken out of those that can be executed, to be applied, or the answer tells why
/// it cannot be.
pub open spec fn takes(
    before: Map<Seq<char>, CodeActionView>,
    after: Map<Seq<char>, CodeActionView>,
    id: Seq<char>,
    taken: TakenAction,
) -> bool {
    &&& after == before.remove(id)
    &&& if !before.contains_key(id) {
        taken matches TakenAction::Answer(result) && is_text(
            result,
            true,
            "Code action with ID '"@ + id + "' not found."@,
        )
    } else {
        match before[id].workspace_edit {
            None => taken matches TakenAction::Answer(result) && is_text(
                result,
                true,
                "Code action '"@ + id + "' has no workspace edit to apply."@,
            ),
            Some(kept_edit) => taken matches TakenAction::Apply { action, edit } && action@
                == before[id] && edit@ == kept_edit,
        }
    }
}

/// An action or a diagnostic as a resource.
#[derive(Clone, Debug)]
pub struct Resource {
    pub uri: String,
    pub name: String,
    pub description: String,
}

/// The resource is that of the action.
pub open spec fn offers_action(resource: Resource, id: Seq<char>, action: CodeActionView) -> bool {
    &&& resource.uri@ == "code-action://"@ + id
    &&& resource.name@ == action.title
    &&& resource.description@ == action.description
}

/// The resource is that of the diagnostic.
pub open spec fn offers_diagnostic(
    resource: Resource,
    id: Seq<char>,
    diagnostic: DiagnosticView,
) -> bool {
    &&& resource.uri@ == "diagnostic://"@ + id
    &&& resource.name@ == "Diagnostic: "@ + diagnostic.message
    &&& resource.description@ == diagnostic.file_path + ":"@ + digits_of(diagnostic.line as nat)
        + " - "@ + diagnostic.message + " ("@ + diagnostic.severity + ")"@
}

/// The resources are those of the actions and then those of the diagnostics, each once.
pub open spec fn lists_resources(
    actions: Map<Seq<char>, CodeActionView>,
    problems: Map<Seq<char>, StoredDiagnosticView>,
    resources: Seq<Resource>,
) -> bool {
    exists|ids: Seq<Seq<char>>, problem_ids: Seq<Seq<char>>|
        #![trigger lists_ids(actions.dom(), ids), lists_ids(problems.dom(), problem_ids)]
        {
            &&& lists_ids(actions.dom(), ids)
            &&& lists_ids(problems.dom(), problem_ids)
            &&& resources.len() == ids.len() + problem_ids.len()
            &&& forall|i: int|
                0 <= i < ids.len() ==> offers_action(
                    #[trigger] resources[i],
                    ids[i],
                    actions[ids[i]],
                )
            &&& forall|i: int|
                ids.len() <= i < resources.len() ==> offers_diagnostic(
                    #[trigger] resources[i],
                    problem_ids[i - ids.len()],
                    problems[problem_ids[i - ids.len()]].diagnostic,
                )
        }
}

/// What a resource holds.
#[derive(Clone, Debug)]
pub enum ResourceContent {
    Action(CodeAction),
    Diagnostic(DiagnosticWithFixes),
}

/// What a URI of a resource reads: an action or a diagnostic by its id, or a failure where there
/// is none or the URI is of neither kind.
pub open spec fn reads(
    actions: Map<Seq<char>, CodeActionView>,
    problems: Map<Seq<char>, StoredDiagnosticView>,
    uri: Seq<char>,
    res: Result<ResourceContent, ToolError>,
) -> bool {
    if "code-action://"@.is_prefix_of(uri) {
        let id = uri.skip("code-action://"@.len() as int);
        if actions.contains_key(id) {
            res matches Ok(ResourceContent::Action(action)) && action@ == actions[id]
        } else {
            res matches Err(error) && is_failure(
                error,
                ErrorKind::InvalidParams,
                "Code action with ID '"@ + id + "' not found"@,
            )
        }
    } else if "diagnostic://"@.is_prefix_of(uri) {
        let id = uri.skip("diagnostic://"@.len() as int);
        if problems.contains_key(id) {
            res matches Ok(ResourceContent::Diagnostic(diagnostic)) && diagnostic@
                == problems[id].diagnostic
        } else {
            res matches Err(error) && is_failure(
                error,
                ErrorKind::InvalidParams,
                "Diagnostic with ID '"@ + id + "' not found"@,
            )
        }
    } else {
        res matches Err(error) && is_failure(
            error,
            ErrorKind::InvalidParams,
            "Invalid resource URI: "@ + uri,
        )
    }
}

fn after_prefix(text: &str, prefix: &str) -> (res: Option<String>)
    ensures
        opt_text(res) == if prefix@.is_prefix_of(text@) {
            Some(text@.skip(prefix@.len() as int))
        } else {
            None
        },
{
    if starts_with(text, prefix) {
        let chars = chars_of(text);
        let from: usize = prefix.unicode_len();
        let rest = string_of(&chars, from, chars.len());
        assert(rest@ =~= text@.skip(prefix@.len() as int));
        Some(rest)
    } else {
        None
    }
}

impl DevToolsServer {
    /// Lists the code actions that can be executed, in no particular order.
    pub fn list_code_actions(&self) -> (res: ToolResult)
        requires
            self.wf(),
        ensures
            lists_actions(self.actions(), res),
    {
        let entries = table_entries(&self.code_actions);
        let ghost table = records(self.code_actions);
        assert(table.dom() =~= self.actions().dom());
        if entries.len() == 0 {
            assert(self.actions().dom() =~= Set::<Seq<char>>::empty()) by {
                assert forall|key: Seq<char>| !self.actions().dom().contains(key) by {
                    if table.contains_key(key) {
                        let k = choose|k: int|
                            0 <= k < entries@.len() && (#[trigger] entries@[k]).0@ == key;
                        assert(false);
                    }
                }
            }
            return text_response("No code actions available.".to_owned(), false);
        }
        assert(self.actions().dom().contains(entries@[0].0@));
        let mut summaries: Vec<ActionSummary> = Vec::new();
        let mut i: usize = 0;
        while i < entries.len()
            invariant
                self.wf(),
                table == records(self.code_actions),
                are_entries(table, entries@),
                i <= entries@.len(),
                summaries@.len() == i,
                forall|k: int|
                    0 <= k < i ==> (#[trigger] summaries@[k]).id@ == entries@[k].0@ && summarizes(
                        summaries@[k],
                        self.actions()[entries@[k].0@],
                    ),
            decreases entries@.len() - i,
        {
            assert(table.contains_key(entries@[i as int].0@));
            match &entries[i].1 {
                Record::Action(action) => {
                    summaries.push(
                        ActionSummary {
                            id: action.id.clone(),
                            title: action.title.clone(),
                            description: action.description.clone(),
                            kind: copy_text(&action.kind),
                            project_name: action.project_name.clone(),
                        },
                    );
                },
                _ => {
                    assert(false);
                },
            }
            i += 1;
        }
        proof {
            assert forall|k: int| 0 <= k < summaries@.len() implies self.actions().contains_key(
                (#[trigger] summaries@[k]).id@,
            ) && summarizes(summaries@[k], self.actions()[summaries@[k].id@]) by {
                assert(table.contains_key(entries@[k].0@));
            }
            assert forall|k: int, l: int| 0 <= k < l < summaries@.len() implies (
            #[trigger] summaries@[k]).id@ != (#[trigger] summaries@[l]).id@ by {
                assert(entries@[k].0@ != entries@[l].0@);
            }
            assert forall|key: Seq<char>| #[trigger] self.actions().contains_key(key) implies
                exists|k: int|
                0 <= k < summaries@.len() && (#[trigger] summaries@[k]).id@ == key by {
                assert(table.contains_key(key));
                let k = choose|k: int|
                    0 <= k < entries@.len() && (#[trigger] entries@[k]).0@ == key;
                assert(summaries@[k].id@ == key);
            }
        }
        part_response(Content::Actions(summaries))
    }

    /// Takes a code action out of those that can be executed, to apply its edit.
    pub fn take_code_action(&mut self, action_id: &str) -> (res: TakenAction)
        requires
            old(self).wf(),
        ensures
            final(self).wf(),
            final(self).remembered() == old(self).remembered(),
            final(self).problems() == old(self).problems(),
            takes(old(self).actions(), final(self).actions(), action_id@, res),
    {
        let ghost before = self.actions();
        let taken = table_remove(&mut self.code_actions, action_id);
        assert(self.actions() =~= before.remove(action_id@));
        let action = match taken {
            Some(Record::Action(action)) => action,
            _ => {
                return TakenAction::Answer(
                    text_response(
                        "Code action with ID '".to_owned().concat(action_id).concat(
                            "' not found.",
                        ),
                        true,
                    ),
                );
            },
        };
        match &action.workspace_edit {
            Some(edit) => {
                let edit = edit.copy();
                TakenAction::Apply { action, edit }
            },
            None => TakenAction::Answer(
                text_response(
                    "Code action '".to_owned().concat(action_id).concat(
                        "' has no workspace edit to apply.",
                    ),
                    true,
                ),
            ),
        }
    }

    /// The actions and diagnostics as resources, the actions first, each in no particular order.
    pub fn list_resources(&self) -> (res: Vec<Resource>)
        requires
            self.wf(),
        ensures
            lists_resources(self.actions(), self.problems(), res@),
    {
        let entries = table_entries(&self.code_actions);
        let problems = table_entries(&self.diagnostics);
        let ghost ids = entries@.map_values(|entry: (String, Record)| entry.0@);
        let ghost problem_ids = problems@.map_values(|entry: (String, Record)| entry.0@);
        proof {
            lemma_lists_ids(records(self.code_actions), entries@);
            lemma_lists_ids(records(self.diagnostics), problems@);
            assert(records(self.code_actions).dom() =~= self.actions().dom());
            assert(records(self.diagnostics).dom() =~= self.problems().dom());
        }
        let mut out: Vec<Resource> = Vec::new();
        let mut i: usize = 0;
        while i < entries.len()
            invariant
                self.wf(),
                are_entries(records(self.code_actions), entries@),
                ids == entries@.map_values(|entry: (String, Record)| entry.0@),
                i <= entries@.len(),
                out@.len() == i,
                forall|k: int|
                    0 <= k < i ==> offers_action(
                        #[trigger] out@[k],
                        ids[k],
                        self.actions()[ids[k]],
                    ),
            decreases entries@.len() - i,
        {
            assert(records(self.code_actions).contains_key(entries@[i as int].0@));
            match &entries[i].1 {
                Record::Action(action) => {
                    out.push(
                        Resource {
                            uri: "code-action://".to_owned().concat(action.id.as_str()),
                            name: action.title.clone(),
                            description: action.description.clone(),
                        },
                    );
                },
                _ => {
                    assert(false);
                },
            }
            i += 1;
        }
        let mut j: usize = 0;
        while j < problems.len()
            invariant
                self.wf(),
                are_entries(records(self.diagnostics), problems@),
                problem_ids == problems@.map_values(|entry: (String, Record)| entry.0@),
                j <= problems@.len(),
                out@.len() == ids.len() + j,
                forall|k: int|
                    0 <= k < ids.len() ==> offers_action(
                        #[trigger] out@[k],
                        ids[k],
                        self.actions()[ids[k]],
                    ),
                forall|k: int|
                    ids.len() <= k < out@.len() ==> offers_diagnostic(
                        #[trigger] out@[k],
                        problem_ids[k - ids.len()],
                        self.problems()[problem_ids[k - ids.len()]].diagnostic,
                    ),
            decreases problems@.len() - j,
        {
            assert(records(self.diagnostics).contains_key(problems@[j as int].0@));
            match &problems[j].1 {
                Record::Diagnostic(stored) => {
                    let diagnostic = &stored.diagnostic;
                    let name = "Diagnostic: ".to_owned().concat(diagnostic.message.as_str());
                    let description = diagnostic.file_path.clone().concat(":").concat(
                        decimal(diagnostic.line as u64).as_str(),
                    ).concat(" - ").concat(diagnostic.message.as_str()).concat(" (").concat(
                        diagnostic.severity.as_str(),
                    ).concat(")");
                    out.push(
                        Resource {
                            uri: "diagnostic://".to_owned().concat(problems[j].0.as_str()),
                            name,
                            description,
                        },
                    );
                },
                _ => {
                    assert(false);
                },
            }
            j += 1;
        }
        assert(lists_ids(self.actions().dom(), ids) && lists_ids(
            self.problems().dom(),
            problem_ids,
        ));
        out
    }

    /// The action or the diagnostic that a URI names.
    pub fn read_resource(&self, uri: &str) -> (res: Result<ResourceContent, ToolError>)
        requires
            self.wf(),
        ensures
            reads(self.actions(), self.problems(), uri@, res),
    {
        if let Some(id) = after_prefix(uri, "code-action://") {
            return match table_get(&self.code_actions, id.as_str()) {
                Some(Record::Action(action)) => Ok(ResourceContent::Action(action)),
                _ => Err(
                    invalid_params(
                        "Code action with ID '".to_owned().concat(id.as_str()).concat(
                            "' not found",
                        ),
                    ),
                ),
            };
        }
        if let Some(id) = after_prefix(uri, "diagnostic://") {
            return match table_get(&self.diagnostics, id.as_str()) {
                Some(Record::Diagnostic(stored)) => Ok(
                    ResourceContent::Diagnostic(stored.diagnostic),
                ),
                _ => Err(
                    invalid_params(
                        "Diagnostic with ID '".to_owned().concat(id.as_str()).concat(
                            "' not found",
                        ),
                    ),
                ),
            };
        }
        Err(invalid_params("Invalid resource URI: ".to_owned().concat(uri)))
    }
}

/// The ids are those of a set, each once.
pub open spec fn lists_ids(set: Set<Seq<char>>, ids: Seq<Seq<char>>) -> bool {
    ids.no_duplicates() && ids.to_set() == set
}

proof fn lemma_lists_ids(
    map: Map<Seq<char>, RecordView>,
    entries: Seq<(String, Record)>,
)
    requires
        are_entries(map, entries),
    ensures
        lists_ids(map.dom(), entries.map_values(|entry: (String, Record)| entry.0@)),
{
    let ids = entries.map_values(|entry: (String, Record)| entry.0@);
    assert forall|i: int, j: int| 0 <= i < ids.len() && 0 <= j < ids.len() && i != j implies ids[i]
        != ids[j] by {
        if i < j {
            assert(entries[i].0@ != entries[j].0@);
        } else {
            assert(entries[j].0@ != entries[i].0@);
        }
    }
    assert forall|key: Seq<char>| ids.to_set().contains(key) == #[trigger] map.dom().contains(
        key,
    ) by {
        if map.contains_key(key) {
            let i = choose|i: int| 0 <= i < entries.len() && (#[trigger] entries[i]).0@ == key;
            assert(ids[i] == key);
        }
        if ids.to_set().contains(key) {
            let i = choose|i: int| 0 <= i < ids.len() && ids[i] == key;
            assert(map.contains_key(entries[i].0@));
        }
    }
    assert(ids.to_set() =~= map.dom());
}

/// The answer tells of the execution of a code action, and of the project that is to be updated.
pub open spec fn tells_execution(
    projects: Map<Seq<char>, ProjectContextView>,
    action: CodeActionView,
    applied: Result<(), String>,
    outcome: Outcome,
    updated: Option<String>,
) -> bool {
    match applied {
        Err(e) => is_refusal(
            outcome,
            "Failed to execute code action '"@ + action.title + "': "@ + e@,
        ) && updated is None,
        Ok(_) => {
            &&& outcome.reply matches Ok(result) && is_text(
                result,
                false,
                "✓ Executed code action '"@ + action.title + "': "@ + action.description,
            )
            &&& outcome.notify == (updated is Some)
            &&& outcome.refresh == (updated is Some)
            &&& match updated {
                Some(root) => is_named_root(projects, action.project_name, root@),
                None => forall|root: Seq<char>| !is_named_root(projects, action.project_name, root),
            }
        },
    }
}

/// Answers the execution of a code action, by whether its edit could be applied. The root of its
/// project comes along, if the edit was applied and the project is still loaded: those who watch
/// it are told, and its code actions are updated.
pub fn execute_code_action(
    context: &Context,
    action: &CodeAction,
    applied: Result<(), String>,
) -> (res: (Outcome, Option<String>))
    requires
        context.wf(),
    ensures
        tells_execution(context@, action@, applied, res.0, res.1),
{
    if let Err(e) = applied {
        let message = "Failed to execute code action '".to_owned().concat(
            action.title.as_str(),
        ).concat("': ").concat(e.as_str());
        return (refuse(message), None);
    }
    let message = "✓ Executed code action '".to_owned().concat(action.title.as_str()).concat(
        "': ",
    ).concat(action.description.as_str());
    let root = context.find_project_by_name(action.project_name.as_str());
    let loaded = root.is_some();
    let outcome = Outcome {
        reply: Ok(text_response(message, false)),
        notify: loaded,
        refresh: loaded,
    };
    (outcome, root)
}

/// The name of the prompt that the server offers.
pub const PROMPT_NAME: &'static str = "rust_development_guidance";

/// What the prompt is, in the listing of prompts.
pub const PROMPT_SUMMARY: &'static str = "Comprehensive guidance for Rust development using the refactored rust-devtools-mcp";

/// What the prompt is, where it is read.
pub const PROMPT_DESCRIPTION: &'static str = "Guidance for using the refactored Rust development tools effectively";

/// What comes of asking for a prompt.
pub open spec fn gives_prompt(name: Seq<char>, res: Result<String, ToolError>) -> bool {
    if name == PROMPT_NAME@ {
        res matches Ok(description) && description@ == PROMPT_DESCRIPTION@
    } else {
        res matches Err(error) && is_failure(
            error,
            ErrorKind::Internal,
            "Unknown prompt: "@ + name,
        )
    }
}

/// The description of a prompt, by its name.
pub fn get_prompt(name: &str) -> (res: Result<String, ToolError>)
    ensures
        gives_prompt(name@, res),
{
    if equal(name, PROMPT_NAME) {
        Ok(PROMPT_DESCRIPTION.to_owned())
    } else {
        Err(internal_error("Unknown prompt: ".to_owned().concat(name)))
    }
}

/// A renaming that is kept can be read back under the URI of its action, and executing it leaves
/// the code actions as they were, so that it cannot be executed again.
pub proof fn law_kept_renaming_is_read_and_executed_once(
    actions: Map<Seq<char>, CodeActionView>,
    problems: Map<Seq<char>, StoredDiagnosticView>,
    project_name: Seq<char>,
    symbol_name: Seq<char>,
    new_name: Seq<char>,
    edit: WorkspaceEditView,
    read: Result<ResourceContent, ToolError>,
    read_after: Result<ResourceContent, ToolError>,
)
    requires
        ({
            let action = rename_action(project_name, symbol_name, new_name, edit);
            let uri = "code-action://"@ + action.id;
            &&& !actions.contains_key(action.id)
            &&& reads(actions.insert(action.id, action), problems, uri, read)
            &&& reads(
                actions.insert(action.id, action).remove(action.id),
                problems,
                uri,
                read_after,
            )
        }),
    ensures
        ({
            let action = rename_action(project_name, symbol_name, new_name, edit);
            &&& read matches Ok(ResourceContent::Action(own)) && own@ == action
            &&& actions.insert(action.id, action).remove(action.id) == actions
            &&& read_after matches Err(error) && is_failure(
                error,
                ErrorKind::InvalidParams,
                "Code action with ID '"@ + action.id + "' not found"@,
            )
        }),
{
    let action = rename_action(project_name, symbol_name, new_name, edit);
    let uri = "code-action://"@ + action.id;
    assert("code-action://"@.is_prefix_of(uri)) by {
        assert(uri.take("code-action://"@.len() as int) =~= "code-action://"@);
    }
    assert(uri.skip("code-action://"@.len() as int) =~= action.id);
    assert(actions.insert(action.id, action).remove(action.id) =~= actions);
}

/// The URI of every resource that is listed can be read, and gives what the resource is for.
pub proof fn law_listed_resources_are_read(
    actions: Map<Seq<char>, CodeActionView>,
    problems: Map<Seq<char>, StoredDiagnosticView>,
    id: Seq<char>,
    resource: Resource,
    read: Result<ResourceContent, ToolError>,
)
    requires
        reads(actions, problems, resource.uri@, read),
        ({
            ||| actions.contains_key(id) && offers_action(resource, id, actions[id])
            ||| problems.contains_key(id) && offers_diagnostic(
                resource,
                id,
                problems[id].diagnostic,
            )
        }),
    ensures
        match read {
            Ok(ResourceContent::Action(action)) => actions.contains_key(id) && action@
                == actions[id],
            Ok(ResourceContent::Diagnostic(diagnostic)) => problems.contains_key(id)
                && diagnostic@ == problems[id].diagnostic,
            Err(_) => false,
        },
{
    reveal_strlit("code-action://");
    reveal_strlit("diagnostic://");
    let uri = resource.uri@;
    let a = "code-action://"@;
    let d = "diagnostic://"@;
    if actions.contains_key(id) && offers_action(resource, id, actions[id]) {
        assert(uri.take(a.len() as int) =~= a);
        assert(uri.skip(a.len() as int) =~= id);
    } else {
        assert(uri.take(d.len() as int) =~= d);
        assert(uri.skip(d.len() as int) =~= id);
        assert(uri[0] == 'd');
        assert(a[0] == 'c');
    }
}

/// The action that is taken under the id of a preview carries the very edit that was previewed:
/// the same files in the same order, each with all its edits. Taking it leaves the other actions
/// as they were.
pub proof fn law_previewed_edit_is_taken(
    before: DevToolsServer,
    kept: DevToolsServer,
    after: Map<Seq<char>, CodeActionView>,
    project_name: Seq<char>,
    symbol_name: Seq<char>,
    new_name: Seq<char>,
    edit: WorkspaceEdit,
    outcome: Outcome,
    taken: TakenAction,
)
    requires
        previews(before, kept, project_name, symbol_name, new_name, edit@, outcome),
        outcome.reply matches Ok(result) && (result.content@[0] matches Content::Rename(report) && (
        report.action_id matches Some(id) && takes(kept.actions(), after, id@, taken))),
    ensures
        taken matches TakenAction::Apply { action, edit: own } && {
            &&& own@ == edit@
            &&& action.project_name@ == project_name
            &&& action.title@ == "Rename '"@ + symbol_name + "' to '"@ + new_name + "'"@
            &&& own.changes is Some <==> edit.changes is Some
            &&& edit.changes matches Some(files) ==> {
                let taken_files = own.changes->0@;
                &&& taken_files.len() == files@.len()
                &&& forall|i: int|
                    0 <= i < taken_files.len() ==> (#[trigger] taken_files[i]).uri@ == files@[i].uri@
                        && taken_files[i].edits@.len() == files@[i].edits@.len()
                &&& forall|i: int, k: int|
                    0 <= i < taken_files.len() && 0 <= k < taken_files[i].edits@.len() ==> (
                    #[trigger] taken_files[i].edits@[k]).range == files@[i].edits@[k].range
                        && taken_files[i].edits@[k].new_text@ == files@[i].edits@[k].new_text@
            }
        },
        outcome.reply matches Ok(result) && (result.content@[0] matches Content::Rename(report) && (
        report.action_id matches Some(id) && after == before.actions().remove(id@)
            && !after.contains_key(id@))),
{
    law_preview_keeps_the_edit(
        before,
        kept,
        project_name,
        symbol_name,
        new_name,
        edit,
        outcome,
    );
    if let TakenAction::Apply { action: _, edit: own } = taken {
        law_edit_is_known_by_what_it_says(own, edit);
    }
}

/// An action is taken once: it is applied with its own edit, and is gone then, while every other
/// action stays. One that is not there, or has no edit, is answered with an error.
pub proof fn law_action_is_taken_once(
    before: Map<Seq<char>, CodeActionView>,
    after: Map<Seq<char>, CodeActionView>,
    id: Seq<char>,
    other: Seq<char>,
    taken: TakenAction,
)
    requires
        takes(before, after, id, taken),
        other != id,
    ensures
        !after.contains_key(id),
        after.contains_key(other) <==> before.contains_key(other),
        after.contains_key(other) ==> after[other] == before[other],
        taken is Apply <==> before.contains_key(id) && before[id].workspace_edit is Some,
        taken matches TakenAction::Apply { action, edit } ==> before[id].workspace_edit == Some(
            edit@,
        ) && action.id@ == before[id].id && action.title@ == before[id].title
            && action.description@ == before[id].description && action.project_name@
            == before[id].project_name,
        taken matches TakenAction::Answer(result) ==> result.is_error && result.content@.len() == 1
            && (result.content@[0] matches Content::Text(text) && text@ == if before.contains_key(
            id,
        ) {
            "Code action '"@ + id + "' has no workspace edit to apply."@
        } else {
            "Code action with ID '"@ + id + "' not found."@
        }),
{
}

/// Every code action is listed, once, with its id, title, description, kind and project, and
/// nothing else is.
pub proof fn law_every_action_is_listed(
    actions: Map<Seq<char>, CodeActionView>,
    result: ToolResult,
    key: Seq<char>,
)
    requires
        lists_actions(actions, result),
        actions.contains_key(key),
        actions[key].id == key,
    ensures
        !result.is_error,
        result.content@.len() == 1,
        result.content@[0] matches Content::Actions(summaries) && {
            &&& exists|i: int|
                {
                    let summary = #[trigger] summaries@[i];
                    &&& 0 <= i < summaries@.len()
                    &&& summary.id@ == key
                    &&& summary.title@ == actions[key].title
                    &&& summary.description@ == actions[key].description
                    &&& summary.project_name@ == actions[key].project_name
                    &&& opt_text(summary.kind) == actions[key].kind
                }
            &&& forall|i: int, j: int|
                0 <= i < j < summaries@.len() ==> (#[trigger] summaries@[i]).id@ != (
                #[trigger] summaries@[j]).id@
            &&& forall|i: int|
                0 <= i < summaries@.len() ==> actions.contains_key((#[trigger] summaries@[i]).id@)
        },
{
    assert(actions.dom().contains(key));
}

/// Every action and every diagnostic is listed as a resource, under a URI with its id, and there
/// are no more resources than actions and diagnostics.
pub proof fn law_everything_is_a_resource(
    actions: Map<Seq<char>, CodeActionView>,
    problems: Map<Seq<char>, StoredDiagnosticView>,
    resources: Seq<Resource>,
    key: Seq<char>,
)
    requires
        lists_resources(actions, problems, resources),
    ensures
        resources.len() == actions.dom().len() + problems.dom().len(),
        actions.contains_key(key) ==> exists|i: int|
            {
                let resource = #[trigger] resources[i];
                &&& 0 <= i < resources.len()
                &&& resource.uri@ == "code-action://"@ + key
                &&& resource.name@ == actions[key].title
                &&& resource.description@ == actions[key].description
            },
        problems.contains_key(key) ==> exists|i: int|
            {
                let resource = #[trigger] resources[i];
                let own = problems[key].diagnostic;
                &&& 0 <= i < resources.len()
                &&& resource.uri@ == "diagnostic://"@ + key
                &&& resource.name@ == "Diagnostic: "@ + own.message
                &&& resource.description@ == own.file_path + ":"@ + digits_of(own.line as nat)
                    + " - "@ + own.message + " ("@ + own.severity + ")"@
            },
{
    let (ids, problem_ids) = choose|ids: Seq<Seq<char>>, problem_ids: Seq<Seq<char>>|
        #![trigger lists_ids(actions.dom(), ids), lists_ids(problems.dom(), problem_ids)]
        {
            &&& lists_ids(actions.dom(), ids)
            &&& lists_ids(problems.dom(), problem_ids)
            &&& resources.len() == ids.len() + problem_ids.len()
            &&& forall|i: int|
                0 <= i < ids.len() ==> offers_action(#[trigger] resources[i], ids[i], actions[ids[i]])
            &&& forall|i: int|
                ids.len() <= i < resources.len() ==> offers_diagnostic(
                    #[trigger] resources[i],
                    problem_ids[i - ids.len()],
                    problems[problem_ids[i - ids.len()]].diagnostic,
                )
        };
    ids.unique_seq_to_set();
    problem_ids.unique_seq_to_set();
    if actions.contains_key(key) {
        assert(ids.to_set().contains(key));
        let i = choose|i: int| 0 <= i < ids.len() && ids[i] == key;
        assert(offers_action(resources[i], ids[i], actions[ids[i]]));
    }
    if problems.contains_key(key) {
        assert(problem_ids.to_set().contains(key));
        let i = choose|i: int| 0 <= i < problem_ids.len() && problem_ids[i] == key;
        let at = ids.len() + i;
        assert(offers_diagnostic(
            resources[at],
            problem_ids[at - ids.len()],
            problems[problem_ids[at - ids.len()]].diagnostic,
        ));
    }
}

/// The execution of an action is told by its title. Its project is updated, and those who watch it
/// are told, where the edit was applied and a project of that name is loaded; where the edit could
/// not be applied, the reason is told and nothing is updated.
pub proof fn law_execution_is_told(
    projects: Map<Seq<char>, ProjectContextView>,
    action: CodeActionView,
    applied: Result<(), String>,
    outcome: Outcome,
    updated: Option<String>,
)
    requires
        tells_execution(projects, action, applied, outcome, updated),
    ensures
        outcome.notify <==> updated is Some,
        outcome.refresh <==> updated is Some,
        outcome.reply matches Ok(result) && result.content@.len() == 1 && {
            &&& result.is_error <==> applied is Err
            &&& result.content@[0] matches Content::Text(text) && (applied is Ok ==> text@
                == "✓ Executed code action '"@ + action.title + "': "@ + action.description) && (
            applied matches Err(e) ==> text@ == "Failed to execute code action '"@ + action.title
                + "': "@ + e@)
        },
        updated matches Some(root) ==> applied is Ok && projects.contains_key(normal_path(root@))
            && projects[normal_path(root@)].project.root == root@ && file_name_of(root@) == Some(
            action.project_name,
        ),
        applied is Ok && updated is None ==> forall|root: Seq<char>|
            !(projects.contains_key(#[trigger] normal_path(root)) && projects[normal_path(
                root,
            )].project.root == root && file_name_of(root) == Some(action.project_name)),
{
    if applied is Ok && updated is None {
        assert forall|root: Seq<char>|
            !(projects.contains_key(#[trigger] normal_path(root)) && projects[normal_path(
                root,
            )].project.root == root && file_name_of(root) == Some(action.project_name)) by {
            assert(!is_named_root(projects, action.project_name, root));
        }
    }
}

/// Where there is no code action, the listing says so.
pub proof fn law_empty_listing_says_so(actions: Map<Seq<char>, CodeActionView>, result: ToolResult)
    requires
        lists_actions(actions, result),
        forall|key: Seq<char>| !#[trigger] actions.contains_key(key),
    ensures
        !result.is_error,
        result.content@.len() == 1,
        result.content@[0] matches Content::Text(text) && text@ == "No code actions available."@,
{
    assert(actions.dom() =~= Set::<Seq<char>>::empty()) by {
        assert forall|key: Seq<char>| !actions.dom().contains(key) by {
            assert(!actions.contains_key(key));
        }
    }
}

/// A URI of a code action reads the action with its id, and a URI of a diagnostic the diagnostic with
/// its id, with all that is known of them. Where there is none, and where the URI is of neither kind,
/// the request is refused for what it asks.
pub proof fn law_uri_reads_what_it_names(
    actions: Map<Seq<char>, CodeActionView>,
    problems: Map<Seq<char>, StoredDiagnosticView>,
    uri: Seq<char>,
    id: Seq<char>,
    read: Result<ResourceContent, ToolError>,
)
    requires
        reads(actions, problems, uri, read),
    ensures
        uri == "code-action://"@ + id ==> match read {
            Ok(ResourceContent::Action(own)) => actions.contains_key(id) && own.id@
                == actions[id].id && own.title@ == actions[id].title && own.description@
                == actions[id].description && own.project_name@ == actions[id].project_name
                && opt_text(own.kind) == actions[id].kind,
            Ok(ResourceContent::Diagnostic(_)) => false,
            Err(error) => !actions.contains_key(id) && error.kind == ErrorKind::InvalidParams
                && error.message@ == "Code action with ID '"@ + id + "' not found"@,
        },
        uri == "diagnostic://"@ + id ==> match read {
            Ok(ResourceContent::Diagnostic(own)) => problems.contains_key(id) && own.file_path@
                == problems[id].diagnostic.file_path && own.severity@
                == problems[id].diagnostic.severity && own.message@
                == problems[id].diagnostic.message && own.line == problems[id].diagnostic.line
                && own.character == problems[id].diagnostic.character,
            Ok(ResourceContent::Action(_)) => false,
            Err(error) => !problems.contains_key(id) && error.kind == ErrorKind::InvalidParams
                && error.message@ == "Diagnostic with ID '"@ + id + "' not found"@,
        },
        !"code-action://"@.is_prefix_of(uri) && !"diagnostic://"@.is_prefix_of(uri) ==> (
        read matches Err(error) && error.kind == ErrorKind::InvalidParams && error.message@
            == "Invalid resource URI: "@ + uri),
{
    reveal_strlit("code-action://");
    reveal_strlit("diagnostic://");
    let a = "code-action://"@;
    let d = "diagnostic://"@;
    if uri == a + id {
        assert(uri.take(a.len() as int) =~= a);
        assert(uri.skip(a.len() as int) =~= id);
    }
    if uri == d + id {
        assert(uri.take(d.len() as int) =~= d);
        assert(uri.skip(d.len() as int) =~= id);
        assert(uri[0] == 'd');
        assert(a[0] == 'c');
    }
}

/// The server has one prompt, under its name, and tells of every other name that it does not know it.
pub proof fn law_one_prompt_is_known(name: Seq<char>, res: Result<String, ToolError>)
    requires
        gives_prompt(name, res),
    ensures
        res is Ok <==> name == "rust_development_guidance"@,
        res matches Ok(description) ==> description@
            == "Guidance for using the refactored Rust development tools effectively"@,
        res matches Err(error) ==> error.kind == ErrorKind::Internal && error.message@
            == "Unknown prompt: "@ + name,
{
}

}
