//! Code actions and diagnostics.
use crate::paths::opt_text;
use crate::workspace::{WorkspaceEdit, WorkspaceEditView};
use vstd::prelude::*;

verus! {

/// A change that can be applied to a project later.
#[derive(Clone, Debug)]
pub struct CodeAction {
    pub id: String,
    pub title: String,
    pub kind: Option<String>,
    pub workspace_edit: Option<WorkspaceEdit>,
    pub project_name: String,
    pub description: String,
}

/// What a code action says.
pub struct CodeActionView {
    pub id: Seq<char>,
    pub title: Seq<char>,
    pub kind: Option<Seq<char>>,
    pub workspace_edit: Option<WorkspaceEditView>,
    pub project_name: Seq<char>,
    pub description: Seq<char>,
}

/// What an optional edit says.
pub open spec fn opt_edit(edit: Option<WorkspaceEdit>) -> Option<WorkspaceEditView> {
    match edit {
        Some(edit) => Some(edit@),
        None => None,
    }
}

impl View for CodeAction {
    type V = CodeActionView;

    open spec fn view(&self) -> CodeActionView {
        CodeActionView {
            id: self.id@,
            title: self.title@,
            kind: opt_text(self.kind),
            workspace_edit: opt_edit(self.workspace_edit),
            project_name: self.project_name@,
            description: self.description@,
        }
    }
}

/// A repair that goes with a diagnostic.
#[derive(Clone, Debug)]
pub struct Fix {
    pub title: String,
    pub kind: Option<String>,
    pub edit_to_apply: Option<WorkspaceEdit>,
}

/// What a repair says.
pub struct FixView {
    pub title: Seq<char>,
    pub kind: Option<Seq<char>>,
    pub edit_to_apply: Option<WorkspaceEditView>,
}

impl View for Fix {
    type V = FixView;

    open spec fn view(&self) -> FixView {
        FixView {
            title: self.title@,
            kind: opt_text(self.kind),
            edit_to_apply: opt_edit(self.edit_to_apply),
        }
    }
}

/// What some repairs say.
pub open spec fn fix_views(fixes: Seq<Fix>) -> Seq<FixView> {
    fixes.map_values(|f: Fix| f@)
}

/// A message of the compiler at a place in a file, with the repairs that go with it.
#[derive(Clone, Debug)]
pub struct DiagnosticWithFixes {
    pub file_path: String,
    pub severity: String,
    pub message: String,
    pub line: usize,
    pub character: usize,
    pub available_fixes: Vec<Fix>,
}

/// What a diagnostic says.
pub struct DiagnosticView {
    pub file_path: Seq<char>,
    pub severity: Seq<char>,
    pub message: Seq<char>,
    pub line: usize,
    pub character: usize,
    pub available_fixes: Seq<FixView>,
}

impl View for DiagnosticWithFixes {
    type V = DiagnosticView;

    open spec fn view(&self) -> DiagnosticView {
        DiagnosticView {
            file_path: self.file_path@,
            severity: self.severity@,
            message: self.message@,
            line: self.line,
            character: self.character,
            available_fixes: fix_views(self.available_fixes@),
        }
    }
}

/// A copy of an optional text.
pub fn copy_text(text: &Option<String>) -> (res: Option<String>)
    ensures
        res == *text,
{
    match text {
        Some(text) => Some(text.clone()),
        None => None,
    }
}

fn copy_edit(edit: &Option<WorkspaceEdit>) -> (res: Option<WorkspaceEdit>)
    ensures
        opt_edit(res) == opt_edit(*edit),
{
    match edit {
        Some(edit) => Some(edit.copy()),
        None => None,
    }
}

impl CodeAction {
    /// A copy of the action.
    pub fn copy(&self) -> (res: CodeAction)
        ensures
            res@ == self@,
    {
        CodeAction {
            id: self.id.clone(),
            title: self.title.clone(),
            kind: copy_text(&self.kind),
            workspace_edit: copy_edit(&self.workspace_edit),
            project_name: self.project_name.clone(),
            description: self.description.clone(),
        }
    }
}

/// A copy of a repair.
pub fn copy_fix(fix: &Fix) -> (res: Fix)
    ensures
        res@ == fix@,
{
    Fix {
        title: fix.title.clone(),
        kind: copy_text(&fix.kind),
        edit_to_apply: copy_edit(&fix.edit_to_apply),
    }
}

impl DiagnosticWithFixes {
    /// A copy of the diagnostic.
    pub fn copy(&self) -> (res: DiagnosticWithFixes)
        ensures
            res@ == self@,
    {
        let mut fixes: Vec<Fix> = Vec::new();
        let mut i: usize = 0;
        while i < self.available_fixes.len()
            invariant
                i <= self.available_fixes@.len(),
                fixes@.len() == i,
                forall|k: int| 0 <= k < i ==> (#[trigger] fixes@[k])@ == self.available_fixes@[k]@,
            decreases self.available_fixes@.len() - i,
        {
            fixes.push(copy_fix(&self.available_fixes[i]));
            i += 1;
        }
        assert(fix_views(fixes@) =~= fix_views(self.available_fixes@));
        DiagnosticWithFixes {
            file_path: self.file_path.clone(),
            severity: self.severity.clone(),
            message: self.message.clone(),
            line: self.line,
            character: self.character,
            available_fixes: fixes,
        }
    }
}

/// Two code actions that say the same have the same id, title, kind, project and description, and
/// carry the same edit.
pub proof fn law_action_is_known_by_what_it_says(a: CodeAction, b: CodeAction)
    requires
        a@ == b@,
    ensures
        a.id@ == b.id@,
        a.title@ == b.title@,
        a.kind is Some <==> b.kind is Some,
        a.kind is Some ==> a.kind->0@ == b.kind->0@,
        a.workspace_edit is Some <==> b.workspace_edit is Some,
        a.workspace_edit is Some ==> a.workspace_edit->0@ == b.workspace_edit->0@,
        a.project_name@ == b.project_name@,
        a.description@ == b.description@,
{
    assert(opt_text(a.kind) == opt_text(b.kind));
    assert(opt_edit(a.workspace_edit) == opt_edit(b.workspace_edit));
}

/// Two repairs that say the same have the same title and kind, and carry the same edit.
pub proof fn law_repair_is_known_by_what_it_says(a: Fix, b: Fix)
    requires
        a@ == b@,
    ensures
        a.title@ == b.title@,
        a.kind is Some <==> b.kind is Some,
        a.kind is Some ==> a.kind->0@ == b.kind->0@,
        a.edit_to_apply is Some <==> b.edit_to_apply is Some,
        a.edit_to_apply is Some ==> a.edit_to_apply->0@ == b.edit_to_apply->0@,
{
    assert(opt_text(a.kind) == opt_text(b.kind));
    assert(opt_edit(a.edit_to_apply) == opt_edit(b.edit_to_apply));
}

/// Two diagnostics that say the same are of the same place, severity and message, and have the same
/// repairs in the same order.
pub proof fn law_diagnostic_is_known_by_what_it_says(a: DiagnosticWithFixes, b: DiagnosticWithFixes)
    requires
        a@ == b@,
    ensures
        a.file_path@ == b.file_path@,
        a.severity@ == b.severity@,
        a.message@ == b.message@,
        a.line == b.line,
        a.character == b.character,
        a.available_fixes@.len() == b.available_fixes@.len(),
        forall|i: int|
            0 <= i < a.available_fixes@.len() ==> (#[trigger] a.available_fixes@[i])@
                == b.available_fixes@[i]@,
{
    let (x, y) = (fix_views(a.available_fixes@), fix_views(b.available_fixes@));
    assert(x == y);
    assert(x.len() == a.available_fixes@.len() && y.len() == b.available_fixes@.len());
    assert forall|i: int| 0 <= i < a.available_fixes@.len() implies (
    #[trigger] a.available_fixes@[i])@ == b.available_fixes@[i]@ by {
        assert(x[i] == a.available_fixes@[i]@ && y[i] == b.available_fixes@[i]@);
    }
}

}
