//! Edits across the files of a workspace.
use crate::edits::{
    apart, apply_edits, bottom_up, edit_views, edited, law_edits_are_independent, patched,
    EditError, Replay, TextEdit, TextEditView,
};
use crate::paths::{file_path_of, opt_text, uri_to_path};
use vstd::prelude::*;
use vstd::utf8::{decode_utf8, encode_utf8, encode_utf8_decode_utf8};

verus! {

/// The edits of one file.
#[derive(Clone, Debug)]
pub struct FileEdits {
    pub uri: String,
    pub edits: Vec<TextEdit>,
}

/// What the edits of one file say.
#[verifier::ext_equal]
pub struct FileEditsView {
    pub uri: Seq<char>,
    pub edits: Seq<TextEditView>,
}

impl View for FileEdits {
    type V = FileEditsView;

    open spec fn view(&self) -> FileEditsView {
        FileEditsView { uri: self.uri@, edits: edit_views(self.edits@) }
    }
}

/// What the edits of some files say.
pub open spec fn file_views(files: Seq<FileEdits>) -> Seq<FileEditsView> {
    files.map_values(|f: FileEdits| f@)
}

/// An edit across the files of a workspace. No two of its entries are for one file. What else it
/// says is carried along as JSON, and is not applied.
#[derive(Clone, Debug)]
pub struct WorkspaceEdit {
    pub changes: Option<Vec<FileEdits>>,
    pub other: Option<String>,
}

/// What an edit across files says.
pub struct WorkspaceEditView {
    pub changes: Option<Seq<FileEditsView>>,
    pub other: Option<Seq<char>>,
}

impl View for WorkspaceEdit {
    type V = WorkspaceEditView;

    open spec fn view(&self) -> WorkspaceEditView {
        WorkspaceEditView {
            changes: match self.changes {
                Some(files) => Some(file_views(files@)),
                None => None,
            },
            other: opt_text(self.other),
        }
    }
}

/// The files that an edit changes, by their URIs.
pub open spec fn changed_files(edit: WorkspaceEditView) -> Seq<Seq<char>> {
    match edit.changes {
        Some(files) => files.map_values(|f: FileEditsView| f.uri),
        None => Seq::empty(),
    }
}

fn copy_edits(edits: &Vec<TextEdit>) -> (res: Vec<TextEdit>)
    ensures
        edit_views(res@) == edit_views(edits@),
{
    let mut out: Vec<TextEdit> = Vec::new();
    let mut i: usize = 0;
    while i < edits.len()
        invariant
            i <= edits@.len(),
            out@.len() == i,
            forall|k: int| 0 <= k < i ==> (#[trigger] out@[k])@ == edits@[k]@,
        decreases edits@.len() - i,
    {
        out.push(TextEdit { range: edits[i].range, new_text: edits[i].new_text.clone() });
        i += 1;
    }
    assert(edit_views(out@) =~= edit_views(edits@));
    out
}

impl WorkspaceEdit {
    /// A copy of the edit.
    pub fn copy(&self) -> (res: WorkspaceEdit)
        ensures
            res@ == self@,
    {
        let other = match &self.other {
            Some(other) => Some(other.clone()),
            None => None,
        };
        let files = match &self.changes {
            Some(files) => files,
            None => return WorkspaceEdit { changes: None, other },
        };
        let mut out: Vec<FileEdits> = Vec::new();
        let mut i: usize = 0;
        while i < files.len()
            invariant
                i <= files@.len(),
                out@.len() == i,
                forall|k: int| 0 <= k < i ==> (#[trigger] out@[k])@ == files@[k]@,
            decreases files@.len() - i,
        {
            out.push(FileEdits { uri: files[i].uri.clone(), edits: copy_edits(&files[i].edits) });
            i += 1;
        }
        assert(file_views(out@) =~= file_views(files@));
        WorkspaceEdit { changes: Some(out), other }
    }

    /// The number of files that the edit changes.
    pub fn changes_count(&self) -> (res: usize)
        ensures
            res == changed_files(self@).len(),
    {
        match &self.changes {
            Some(files) => files.len(),
            None => 0,
        }
    }

    /// The files that the edit changes, by their URIs.
    pub fn files_affected(&self) -> (res: Vec<String>)
        ensures
            crate::text::texts(res@) == changed_files(self@),
    {
        let mut out: Vec<String> = Vec::new();
        if let Some(files) = &self.changes {
            let mut i: usize = 0;
            while i < files.len()
                invariant
                    i <= files@.len(),
                    out@.len() == i,
                    forall|k: int| 0 <= k < i ==> (#[trigger] out@[k])@ == files@[k].uri@,
                decreases files@.len() - i,
            {
                out.push(files[i].uri.clone());
                i += 1;
            }
        }
        assert(crate::text::texts(out@) =~= changed_files(self@));
        out
    }
}

/// The next step in applying an edit to the files of a workspace.
#[derive(Clone, Debug)]
pub enum EditStep {
    /// Make these edits in the file that the URI names. Its path is what is shown of it: the file
    /// is found by the URI, since a path need not be Unicode.
    Edit { uri: String, path: String, edits: Vec<TextEdit> },
    /// Every file is edited.
    Done,
    /// The edit fails, and the files that come next stay as they are.
    Failed(String),
}

/// The step that follows once the first `done` files are edited.
pub open spec fn edit_step(edit: WorkspaceEditView, done: nat, step: EditStep) -> bool {
    if done >= changed_files(edit).len() {
        step is Done
    } else {
        let uri = changed_files(edit)[done as int];
        match file_path_of(uri) {
            Some(shown) => step matches EditStep::Edit { uri: own, path, edits } && own@ == uri
                && path@ == shown && edit_views(edits@) == edit.changes->0[done as int].edits,
            None => step matches EditStep::Failed(message) && message@
                == "Invalid file URI in WorkspaceEdit: "@ + uri,
        }
    }
}

/// The next step in applying an edit, once the first `done` of its files are edited. An edit
/// without changes is done at once.
pub fn apply_workspace_edit(edit: &WorkspaceEdit, done: usize) -> (res: EditStep)
    ensures
        edit_step(edit@, done as nat, res),
{
    let files = match &edit.changes {
        Some(files) => files,
        None => return EditStep::Done,
    };
    if done >= files.len() {
        return EditStep::Done;
    }
    assert(changed_files(edit@)[done as int] == files@[done as int].uri@);
    assert(edit@.changes->0[done as int] == files@[done as int]@);
    let uri = &files[done].uri;
    match uri_to_path(uri.as_str()) {
        Some(path) => EditStep::Edit {
            uri: uri.clone(),
            path,
            edits: copy_edits(&files[done].edits),
        },
        None => EditStep::Failed(
            "Invalid file URI in WorkspaceEdit: ".to_owned().concat(uri.as_str()),
        ),
    }
}

/// How the failure to edit a file is told.
pub open spec fn edit_failure(path: Seq<char>, error: Seq<char>) -> Seq<char> {
    "Failed to apply edits to "@ + path + ": "@ + error
}

/// How a refusal of edits is told.
pub open spec fn edit_error_text(error: EditError) -> Seq<char> {
    match error {
        EditError::InvalidRange => "Invalid range in text edit."@,
        EditError::UnknownPosition => "Could not convert LSP position to byte offset."@,
    }
}

/// What comes of edits of a file, by what reading it gave.
pub open spec fn edits_file(
    path: Seq<char>,
    edits: Seq<TextEditView>,
    content: Result<String, String>,
    res: Result<String, String>,
) -> bool {
    match content {
        Err(error) => res matches Err(message) && message@ == edit_failure(path, error@),
        Ok(text) => match edited(text@, edits) {
            Replay::Edited(bytes) => res matches Ok(new) && encode_utf8(new@) == bytes,
            Replay::Refused(error) => res matches Err(message) && message@ == edit_failure(
                path,
                edit_error_text(error),
            ),
            Replay::SplitsCharacter => false,
        },
    }
}

/// How the failure to edit a file is told.
pub fn edit_failure_message(path: &str, error: &str) -> (res: String)
    ensures
        res@ == edit_failure(path@, error@),
{
    "Failed to apply edits to ".to_owned().concat(path).concat(": ").concat(error)
}

/// The content of a file after edits, by what reading it gave: its content or an error. No range
/// may start or end inside a character.
pub fn apply_edits_to_file(
    path: &str,
    edits: &Vec<TextEdit>,
    content: Result<String, String>,
) -> (res: Result<String, String>)
    requires
        content matches Ok(text) ==> edited(text@, edit_views(edits@)) !is SplitsCharacter,
    ensures
        edits_file(path@, edit_views(edits@), content, res),
{
    match content {
        Err(error) => Err(edit_failure_message(path, error.as_str())),
        Ok(text) => match apply_edits(text.as_str(), edits) {
            Ok(new) => Ok(new),
            Err(EditError::InvalidRange) => Err(
                edit_failure_message(path, "Invalid range in text edit."),
            ),
            Err(EditError::UnknownPosition) => Err(
                edit_failure_message(path, "Could not convert LSP position to byte offset."),
            ),
        },
    }
}

/// The path of the file that entry `i` of an edit is for, if its URI names one.
pub open spec fn path_at(edit: WorkspaceEditView, i: int) -> Option<Seq<char>> {
    file_path_of(changed_files(edit)[i])
}

/// The text of a file after the edits that entry `i` has for it, if it can be edited so.
pub open spec fn text_after(
    files: Map<Seq<char>, Seq<char>>,
    edit: WorkspaceEditView,
    i: int,
) -> Option<Seq<char>> {
    match path_at(edit, i) {
        Some(path) => if files.contains_key(path) {
            match edited(files[path], edit.changes->0[i].edits) {
                Replay::Edited(bytes) => Some(decode_utf8(bytes)),
                _ => None,
            }
        } else {
            None
        },
        None => None,
    }
}

/// The texts of the files after a run of an edit that has `done` of its entries behind it, and
/// whether the run came to its end. It stops at the first entry that cannot be carried out.
pub open spec fn files_after(
    files: Map<Seq<char>, Seq<char>>,
    edit: WorkspaceEditView,
    done: int,
) -> (Map<Seq<char>, Seq<char>>, bool)
    decreases changed_files(edit).len() - done,
{
    if done >= changed_files(edit).len() {
        (files, true)
    } else {
        match text_after(files, edit, done) {
            Some(text) => files_after(files.insert(path_at(edit, done)->0, text), edit, done + 1),
            None => (files, false),
        }
    }
}

/// No two entries of an edit are for files whose paths are shown alike.
pub open spec fn has_distinct_files(edit: WorkspaceEditView) -> bool {
    forall|i: int, j: int|
        0 <= i < j < changed_files(edit).len() && path_at(edit, i) is Some ==> #[trigger] path_at(
            edit,
            i,
        ) != #[trigger] path_at(edit, j)
}

/// A run of an edit, over files that are known by their paths as they are shown, touches no file
/// that it has no entry for. Where it comes to its end, each file that it has an entry for has just
/// the edits of that entry.
pub proof fn law_files_get_their_own_edits(
    files: Map<Seq<char>, Seq<char>>,
    edit: WorkspaceEditView,
    path: Seq<char>,
)
    requires
        has_distinct_files(edit),
    ensures
        (forall|i: int| 0 <= i < changed_files(edit).len() ==> #[trigger] path_at(edit, i) != Some(path))
            ==> files_after(files, edit, 0).0.contains_key(path) == files.contains_key(path)
            && files_after(files, edit, 0).0[path] == files[path],
        files_after(files, edit, 0).1 ==> forall|i: int|
            0 <= i < changed_files(edit).len() && #[trigger] path_at(edit, i) == Some(path) ==> {
                &&& text_after(files, edit, i) is Some
                &&& files_after(files, edit, 0).0.contains_key(path)
                &&& files_after(files, edit, 0).0[path] == text_after(files, edit, i)->0
            },
{
    lemma_files_after(files, edit, 0, path);
}

/// What a run leaves of a file once `done` entries are behind it.
proof fn lemma_files_after(
    files: Map<Seq<char>, Seq<char>>,
    edit: WorkspaceEditView,
    done: int,
    path: Seq<char>,
)
    requires
        has_distinct_files(edit),
        0 <= done,
    ensures
        (forall|i: int|
            done <= i < changed_files(edit).len() ==> #[trigger] path_at(edit, i) != Some(path))
            ==> files_after(files, edit, done).0.contains_key(path) == files.contains_key(path)
            && files_after(files, edit, done).0[path] == files[path],
        files_after(files, edit, done).1 ==> forall|i: int|
            done <= i < changed_files(edit).len() && #[trigger] path_at(edit, i) == Some(path)
                ==> {
                &&& text_after(files, edit, i) is Some
                &&& files_after(files, edit, done).0.contains_key(path)
                &&& files_after(files, edit, done).0[path] == text_after(files, edit, i)->0
            },
    decreases changed_files(edit).len() - done,
{
    let n = changed_files(edit).len();
    if done < n {
        if let Some(text) = text_after(files, edit, done) {
            let here = path_at(edit, done)->0;
            let next = files.insert(here, text);
            lemma_files_after(next, edit, done + 1, path);
            if forall|i: int| done <= i < n ==> #[trigger] path_at(edit, i) != Some(path) {
                assert(path_at(edit, done) != Some(path));
            }
            if files_after(files, edit, done).1 {
                assert forall|i: int|
                    done <= i < n && #[trigger] path_at(edit, i) == Some(path) implies {
                    &&& text_after(files, edit, i) is Some
                    &&& files_after(files, edit, done).0.contains_key(path)
                    &&& files_after(files, edit, done).0[path] == text_after(files, edit, i)->0
                } by {
                    if i == done {
                        assert forall|k: int| done + 1 <= k < n implies #[trigger] path_at(edit, k)
                            != Some(path) by {
                            assert(path_at(edit, done) != path_at(edit, k));
                        }
                    } else {
                        assert(path_at(edit, done) != path_at(edit, i));
                        assert(text_after(next, edit, i) == text_after(files, edit, i));
                    }
                }
            }
        }
    }
}

/// The step for a file carries all the edits that the edit has for it, in their order, together
/// with the URI and the path of the file. Where the URI names no file, the edit fails there; where
/// no file is left, it is done.
pub proof fn law_step_carries_all_edits(edit: WorkspaceEdit, done: nat, step: EditStep)
    requires
        edit_step(edit@, done, step),
    ensures
        edit.changes is None ==> step is Done,
        edit.changes matches Some(files) ==> if done < files@.len() {
            let file = files@[done as int];
            match file_path_of(file.uri@) {
                Some(shown) => step matches EditStep::Edit { uri, path, edits } && {
                    &&& uri@ == file.uri@
                    &&& path@ == shown
                    &&& edits@.len() == file.edits@.len()
                    &&& forall|k: int|
                        0 <= k < edits@.len() ==> (#[trigger] edits@[k]).range
                            == file.edits@[k].range && edits@[k].new_text@
                            == file.edits@[k].new_text@
                },
                None => step matches EditStep::Failed(message) && message@
                    == "Invalid file URI in WorkspaceEdit: "@ + file.uri@,
            }
        } else {
            step is Done
        },
{
    if let Some(files) = edit.changes {
        if done < files@.len() {
            let file = files@[done as int];
            assert(edit@.changes->0[done as int] == file@);
            assert(changed_files(edit@)[done as int] == file.uri@);
            if let EditStep::Edit { edits, .. } = step {
                let (own, all) = (edit_views(edits@), edit_views(file.edits@));
                assert(own == all);
                assert(own.len() == edits@.len() && all.len() == file.edits@.len());
                assert forall|k: int| 0 <= k < edits@.len() implies (#[trigger] edits@[k]).range
                    == file.edits@[k].range && edits@[k].new_text@ == file.edits@[k].new_text@ by {
                    assert(own[k] == edits@[k]@ && all[k] == file.edits@[k]@);
                }
            }
        }
    }
}

/// The texts of the files once steps are carried out, one after the other, each edit in the file
/// that it is for, and whether the last of them was reached.
pub open spec fn files_by_steps(
    files: Map<Seq<char>, Seq<char>>,
    steps: Seq<EditStep>,
) -> (Map<Seq<char>, Seq<char>>, bool)
    decreases steps.len(),
{
    if steps.len() == 0 {
        (files, false)
    } else {
        match steps[0] {
            EditStep::Done => (files, true),
            EditStep::Failed(_) => (files, false),
            EditStep::Edit { path, edits, .. } => if files.contains_key(path@) {
                match edited(files[path@], edit_views(edits@)) {
                    Replay::Edited(bytes) => files_by_steps(
                        files.insert(path@, decode_utf8(bytes)),
                        steps.skip(1),
                    ),
                    _ => (files, false),
                }
            } else {
                (files, false)
            },
        }
    }
}

/// Carrying out the steps of an edit from the first to the last gives each file in turn the edits
/// that the edit has for it, and stops where one cannot be made.
pub proof fn law_steps_apply_the_edit(
    files: Map<Seq<char>, Seq<char>>,
    edit: WorkspaceEditView,
    done: int,
    steps: Seq<EditStep>,
)
    requires
        0 <= done <= changed_files(edit).len(),
        steps.len() == changed_files(edit).len() - done + 1,
        forall|i: int|
            0 <= i < steps.len() ==> edit_step(edit, (done + i) as nat, #[trigger] steps[i]),
    ensures
        files_by_steps(files, steps) == files_after(files, edit, done),
    decreases steps.len(),
{
    assert(edit_step(edit, (done + 0) as nat, steps[0]));
    if done < changed_files(edit).len() {
        let rest = steps.skip(1);
        assert forall|i: int| 0 <= i < rest.len() implies edit_step(
            edit,
            (done + 1 + i) as nat,
            #[trigger] rest[i],
        ) by {
            assert(edit_step(edit, (done + (i + 1)) as nat, steps[i + 1]));
        }
        if let EditStep::Edit { path, edits, .. } = steps[0] {
            if let Some(text) = text_after(files, edit, done) {
                law_steps_apply_the_edit(files.insert(path@, text), edit, done + 1, rest);
            }
        }
    }
}

/// A file that can be read comes out of edits that touch no character twice with each range
/// replaced by its new text; one that cannot be read comes out with the error.
pub proof fn law_file_gets_its_edits(
    path: Seq<char>,
    edits: Seq<TextEditView>,
    content: Result<String, String>,
    res: Result<String, String>,
)
    requires
        edits_file(path, edits, content, res),
    ensures
        content matches Ok(text) ==> (apart(text@, bottom_up(edits)) ==> (res matches Ok(new)
            && new@ == patched(text@, text@, bottom_up(edits)))),
        content matches Err(error) ==> (res matches Err(message) && "Failed to apply edits to "@
            + path + ": "@ + error@ == message@),
{
    if let Ok(text) = content {
        if apart(text@, bottom_up(edits)) {
            law_edits_are_independent(text@, edits);
            if let Ok(new) = res {
                encode_utf8_decode_utf8(new@);
                encode_utf8_decode_utf8(patched(text@, text@, bottom_up(edits)));
            }
        }
    }
}

/// The files that an edit is said to change are those of its entries, in their order.
pub proof fn law_changed_files_are_all_listed(edit: WorkspaceEdit)
    ensures
        match edit.changes {
            Some(files) => {
                &&& changed_files(edit@).len() == files@.len()
                &&& forall|i: int|
                    0 <= i < files@.len() ==> changed_files(edit@)[i] == (#[trigger] files@[i]).uri@
            },
            None => changed_files(edit@).len() == 0,
        },
{
}

/// Two edits that say the same change the same files, in the same order and by the same edits.
pub proof fn law_edit_is_known_by_what_it_says(a: WorkspaceEdit, b: WorkspaceEdit)
    requires
        a@ == b@,
    ensures
        a.changes is Some <==> b.changes is Some,
        a.changes is Some ==> {
            let (x, y) = (a.changes->0@, b.changes->0@);
            &&& x.len() == y.len()
            &&& forall|i: int|
                0 <= i < x.len() ==> (#[trigger] x[i]).uri@ == y[i].uri@ && x[i].edits@.len()
                    == y[i].edits@.len()
            &&& forall|i: int, k: int|
                0 <= i < x.len() && 0 <= k < x[i].edits@.len() ==> (
                #[trigger] x[i].edits@[k]).range == y[i].edits@[k].range && x[i].edits@[k].new_text@
                    == y[i].edits@[k].new_text@
        },
        a.other is Some <==> b.other is Some,
        a.other is Some ==> a.other->0@ == b.other->0@,
{
    if a.changes is Some {
        let (x, y) = (a.changes->0@, b.changes->0@);
        assert(file_views(x) == file_views(y));
        assert(file_views(x).len() == x.len() && file_views(y).len() == y.len());
        assert forall|i: int| 0 <= i < x.len() implies (#[trigger] x[i]).uri@ == y[i].uri@
            && x[i].edits@.len() == y[i].edits@.len() by {
            assert(file_views(x)[i] == x[i]@ && file_views(y)[i] == y[i]@);
            assert(edit_views(x[i].edits@).len() == edit_views(y[i].edits@).len());
        }
        assert forall|i: int, k: int| 0 <= i < x.len() && 0 <= k < x[i].edits@.len() implies (
        #[trigger] x[i].edits@[k]).range == y[i].edits@[k].range && x[i].edits@[k].new_text@
            == y[i].edits@[k].new_text@ by {
            assert(file_views(x)[i] == x[i]@ && file_views(y)[i] == y[i]@);
            assert(x[i].edits@.len() == y[i].edits@.len());
            assert(edit_views(x[i].edits@)[k] == x[i].edits@[k]@);
            assert(edit_views(y[i].edits@)[k] == y[i].edits@[k]@);
        }
    }
    assert(opt_text(a.other) == opt_text(b.other));
}

/// Edits that are refused leave no text, and the file and the reason are told.
pub proof fn law_refused_edits_are_told(
    path: Seq<char>,
    edits: Seq<TextEditView>,
    text: String,
    res: Result<String, String>,
    error: EditError,
)
    requires
        edits_file(path, edits, Ok(text), res),
        edited(text@, edits) == Replay::Refused(error),
    ensures
        res matches Err(message) && message@ == "Failed to apply edits to "@ + path + ": "@
            + match error {
            EditError::InvalidRange => "Invalid range in text edit."@,
            EditError::UnknownPosition => "Could not convert LSP position to byte offset."@,
        },
{
}

}
