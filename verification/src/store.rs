//! The tables of the server, each a `DashMap` from a text to a record.
use crate::actions::{CodeAction, CodeActionView, DiagnosticView, DiagnosticWithFixes};
use crate::project::{Project, ProjectView};
use dashmap::DashMap;
use vstd::prelude::*;

verus! {

/// A project in the workspace, and whether its language server is indexing it.
#[derive(Clone, Debug)]
pub struct ProjectContext {
    pub project: Project,
    pub is_indexing_lsp: bool,
}

/// What is known of a project in the workspace.
pub struct ProjectContextView {
    pub project: ProjectView,
    pub is_indexing_lsp: bool,
}

impl View for ProjectContext {
    type V = ProjectContextView;

    open spec fn view(&self) -> ProjectContextView {
        ProjectContextView { project: self.project@, is_indexing_lsp: self.is_indexing_lsp }
    }
}

/// A diagnostic, and the root of the project whose check gave it.
#[derive(Clone, Debug)]
pub struct StoredDiagnostic {
    pub root: String,
    pub diagnostic: DiagnosticWithFixes,
}

/// What is known of a diagnostic, and of the project that it belongs to.
pub struct StoredDiagnosticView {
    pub root: Seq<char>,
    pub diagnostic: DiagnosticView,
}

impl View for StoredDiagnostic {
    type V = StoredDiagnosticView;

    open spec fn view(&self) -> StoredDiagnosticView {
        StoredDiagnosticView { root: self.root@, diagnostic: self.diagnostic@ }
    }
}

/// What a table holds: projects, code actions or diagnostics.
#[derive(Clone, Debug)]
pub enum Record {
    Project(ProjectContext),
    Action(CodeAction),
    Diagnostic(StoredDiagnostic),
}

/// What a record says.
pub enum RecordView {
    Project(ProjectContextView),
    Action(CodeActionView),
    Diagnostic(StoredDiagnosticView),
}

impl View for Record {
    type V = RecordView;

    open spec fn view(&self) -> RecordView {
        match self {
            Record::Project(project) => RecordView::Project(project@),
            Record::Action(action) => RecordView::Action(action@),
            Record::Diagnostic(stored) => RecordView::Diagnostic(stored@),
        }
    }
}

impl ProjectContext {
    /// A copy of what is known of the project.
    pub fn copy(&self) -> (res: ProjectContext)
        ensures
            res@ == self@,
    {
        ProjectContext { project: self.project.copy(), is_indexing_lsp: self.is_indexing_lsp }
    }
}

/// A copy of a record.
pub fn copy_record(record: &Record) -> (res: Record)
    ensures
        res@ == record@,
{
    match record {
        Record::Project(project) => Record::Project(project.copy()),
        Record::Action(action) => Record::Action(action.copy()),
        Record::Diagnostic(stored) => Record::Diagnostic(
            StoredDiagnostic { root: stored.root.clone(), diagnostic: stored.diagnostic.copy() },
        ),
    }
}

/// A map of the `dashmap` crate.
#[verifier::external_type_specification]
#[verifier::external_body]
#[verifier::reject_recursive_types(K)]
#[verifier::reject_recursive_types(V)]
#[verifier::reject_recursive_types(S)]
pub struct ExDashMap<K, V, S>(DashMap<K, V, S>);

/// What a table holds.
pub uninterp spec fn records(table: DashMap<String, Record>) -> Map<Seq<char>, RecordView>;

/// The entries are those of the map, each once.
pub open spec fn are_entries(
    map: Map<Seq<char>, RecordView>,
    entries: Seq<(String, Record)>,
) -> bool {
    &&& forall|i: int|
        0 <= i < entries.len() ==> map.contains_key((#[trigger] entries[i]).0@)
            && map[entries[i].0@] == entries[i].1@
    &&& forall|i: int, j: int|
        0 <= i < j < entries.len() ==> (#[trigger] entries[i]).0@ != (#[trigger] entries[j]).0@
    &&& forall|key: Seq<char>| #[trigger]
        map.contains_key(key) ==> exists|i: int|
            0 <= i < entries.len() && (#[trigger] entries[i]).0@ == key
}

/// `DashMap::new`: a table without entries.
#[verifier::external_body]
pub(crate) fn new_table() -> (res: DashMap<String, Record>)
    ensures
        (records(res) == Map::<Seq<char>, RecordView>::empty()),
{
    DashMap::new()
}

/// `DashMap::insert`: the key now has the record, whatever it had before.
#[verifier::external_body]
pub(crate) fn table_insert(table: &mut DashMap<String, Record>, key: String, record: Record)
    ensures
        records(*final(table)) == records(*old(table)).insert(key@, record@),
{
    table.insert(key, record);
}

/// `DashMap::remove`: the key has no record any more, and the one that it had comes back.
#[verifier::external_body]
pub(crate) fn table_remove(table: &mut DashMap<String, Record>, key: &str) -> (res: Option<Record>)
    ensures
        records(*final(table)) == records(*old(table)).remove(key@),
        res is Some <==> records(*old(table)).contains_key(key@),
        res matches Some(record) ==> record@ == records(*old(table))[key@],
{
    table.remove(key).map(|entry| entry.1)
}

/// `DashMap::get`: the record of a key, copied out of the table.
#[verifier::external_body]
pub(crate) fn table_get(table: &DashMap<String, Record>, key: &str) -> (res: Option<Record>)
    ensures
        res is Some <==> records(*table).contains_key(key@),
        res matches Some(record) ==> record@ == records(*table)[key@],
{
    table.get(key).map(|entry| copy_record(entry.value()))
}

/// `DashMap::iter`: every entry once, copied out of the table. The order follows the hashes of
/// the keys, which differ from one process to the next.
#[verifier::external_body]
pub(crate) fn table_entries(table: &DashMap<String, Record>) -> (res: Vec<(String, Record)>)
    ensures
        are_entries(records(*table), res@),
{
    table.iter().map(|entry| (entry.key().clone(), copy_record(entry.value()))).collect()
}

/// `DashMap::len`: the number of entries.
#[verifier::external_body]
pub(crate) fn table_len(table: &DashMap<String, Record>) -> (res: usize)
    ensures
        res == records(*table).len(),
{
    table.len()
}

/// `DashMap::clear`: no entry is left.
#[verifier::external_body]
pub(crate) fn table_clear(table: &mut DashMap<String, Record>)
    ensures
        (records(*final(table)) == Map::<Seq<char>, RecordView>::empty()),
{
    table.clear()
}

/// Two records that say the same are of the same kind, and say the same of the project, of the code
/// action, or of the diagnostic and the project whose check gave it.
pub proof fn law_record_is_known_by_what_it_says(a: Record, b: Record)
    requires
        a@ == b@,
    ensures
        match (a, b) {
            (Record::Project(x), Record::Project(y)) => x.project@ == y.project@
                && x.is_indexing_lsp == y.is_indexing_lsp,
            (Record::Action(x), Record::Action(y)) => x@ == y@,
            (Record::Diagnostic(x), Record::Diagnostic(y)) => x.root@ == y.root@ && x.diagnostic@
                == y.diagnostic@,
            _ => false,
        },
{
}

}
