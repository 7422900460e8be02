//! The workspace: its projects, and how the server is reached.
use crate::commands::{save_project, saved_project};
use crate::config::{
    law_configuration_lists_its_entries, listed, ListedProject, SerConfig, SerProject,
};
use crate::notification::{
    ContextNotification, IndexingProgress, LspNotification, McpNotification, ProjectDescription,
};
use crate::paths::{
    file_name_of, normal_path, parent_of, path_file_name, path_normal, path_parent,
};
use crate::project::{bare_project, Project, ProjectView, TransportType};
use crate::store::{
    are_entries, new_table, records, table_entries, table_get, table_insert, table_remove,
    ProjectContext, ProjectContextView, Record, RecordView,
};
use crate::text::{
    decimal, digits_of, equal, is_space, law_texts_are_those_of_the_strings,
    law_trimming_takes_the_space_off, lemma_trimmed, occurs, replace, replaced, texts, trim, trimmed,
};
use dashmap::DashMap;
use vstd::prelude::*;

verus! {

/// How a client is told to reach the server over SSE.
pub const CONFIG_TEMPLATE_SSE: &'static str = r#"
{
    "mcpServers": {
        "rust-devtools-mcp": {
            "url": "http://{{HOST}}:{{PORT}}/sse"
        }
    }
}
"#;

/// How a client is told to reach the server over HTTP.
pub const CONFIG_TEMPLATE_STREAMABLE_HTTP: &'static str = r#"
{
    "mcpServers": {
        "rust-devtools-mcp": {
            "url": "http://{{HOST}}:{{PORT}}/mcp"
        }
    }
}
"#;

/// How a client is told to start the server and talk to it over its standard streams.
pub const CONFIG_TEMPLATE_STDIO: &'static str = r#"
{
    "mcpServers": {
        "rust-devtools-mcp": {
            "command": "rust-devtools-mcp",
            "args": ["serve", "--transport", "stdio"]
        }
    }
}
"#;

/// The workspace.
pub struct Context {
    pub(crate) projects: DashMap<String, Record>,
    pub(crate) transport: TransportType,
    pub(crate) config_path: String,
}

/// What is to be done outside once the workspace has changed.
#[derive(Clone, Debug)]
pub enum ContextEffect {
    /// Send the descriptions of the projects.
    DescribeProjects,
    /// Write the configuration file.
    WriteConfig(SerConfig),
    /// Send a message.
    Notify(ContextNotification),
}

/// The host and the port at which the server is reached.
pub open spec fn address_of(transport: TransportType) -> (Seq<char>, u16) {
    match transport {
        TransportType::Stdio => ("stdio"@, 0),
        TransportType::Sse { host, port } => (host@, port),
        TransportType::StreamableHttp { host, port } => (host@, port),
    }
}

/// The template of what a client is told.
pub open spec fn template_of(transport: TransportType) -> Seq<char> {
    match transport {
        TransportType::Stdio => CONFIG_TEMPLATE_STDIO@,
        TransportType::Sse { .. } => CONFIG_TEMPLATE_SSE@,
        TransportType::StreamableHttp { .. } => CONFIG_TEMPLATE_STREAMABLE_HTTP@,
    }
}

/// What a client is told to reach the server: the template with the host and the port in their
/// places.
pub open spec fn configuration_of(transport: TransportType) -> Seq<char> {
    replaced(
        replaced(template_of(transport), "{{HOST}}"@, address_of(transport).0),
        "{{PORT}}"@,
        digits_of(address_of(transport).1 as nat),
    )
}

/// The projects of a table by the normal form of their roots.
pub open spec fn projects_in(map: Map<Seq<char>, RecordView>) -> Map<
    Seq<char>,
    ProjectContextView,
> {
    map.map_values(|record: RecordView| record->Project_0)
}

impl Context {
    /// The table holds projects, each under the normal form of its root.
    pub open(crate) spec fn wf(&self) -> bool {
        forall|key: Seq<char>| #[trigger]
            records(self.projects).contains_key(key) ==> {
                &&& records(self.projects)[key] is Project
                &&& normal_path(records(self.projects)[key]->Project_0.project.root) == key
            }
    }

    /// The projects by the normal form of their roots.
    pub open(crate) spec fn view(&self) -> Map<Seq<char>, ProjectContextView> {
        projects_in(records(self.projects))
    }

    /// How the server is reached.
    pub open(crate) spec fn reached_by(&self) -> TransportType {
        self.transport
    }

    /// The path of the configuration file.
    pub open(crate) spec fn saved_at(&self) -> String {
        self.config_path
    }

    /// The root of every project ends in a name.
    pub open spec fn all_named(&self) -> bool {
        forall|key: Seq<char>| #[trigger]
            self@.contains_key(key) ==> file_name_of(self@[key].project.root) is Some
    }
}

/// The roots are those of the projects, each once.
pub open spec fn are_roots(projects: Map<Seq<char>, ProjectContextView>, roots: Seq<String>) -> bool {
    &&& forall|i: int|
        0 <= i < roots.len() ==> projects.contains_key(normal_path((#[trigger] roots[i])@))
            && projects[normal_path(roots[i]@)].project.root == roots[i]@
    &&& forall|i: int, j: int|
        0 <= i < j < roots.len() ==> normal_path((#[trigger] roots[i])@) != normal_path(
            (#[trigger] roots[j])@,
        )
    &&& forall|key: Seq<char>| #[trigger]
        projects.contains_key(key) ==> exists|i: int|
            0 <= i < roots.len() && normal_path((#[trigger] roots[i])@) == key
}

/// The projects as they are saved, each under the path that its root is.
pub open spec fn saved_projects(projects: Map<Seq<char>, ProjectContextView>) -> Map<
    Seq<char>,
    ListedProject,
> {
    projects.map_values(
        |context: ProjectContextView| ListedProject {
            path: context.project.root,
            project: saved_project(context.project),
        },
    )
}

/// The description is that of the project.
pub open spec fn describes(description: ProjectDescription, context: ProjectContextView) -> bool {
    &&& description.root@ == context.project.root
    &&& file_name_of(context.project.root) == Some(description.name@)
    &&& description.is_indexing_lsp == context.is_indexing_lsp
}

/// The descriptions are those of the projects, each once.
pub open spec fn are_descriptions(
    projects: Map<Seq<char>, ProjectContextView>,
    descriptions: Seq<ProjectDescription>,
) -> bool {
    &&& forall|i: int|
        0 <= i < descriptions.len() ==> projects.contains_key(
            normal_path((#[trigger] descriptions[i]).root@),
        ) && describes(descriptions[i], projects[normal_path(descriptions[i].root@)])
    &&& forall|i: int, j: int|
        0 <= i < j < descriptions.len() ==> normal_path((#[trigger] descriptions[i]).root@)
            != normal_path((#[trigger] descriptions[j]).root@)
    &&& forall|key: Seq<char>| #[trigger]
        projects.contains_key(key) ==> exists|i: int|
            0 <= i < descriptions.len() && normal_path((#[trigger] descriptions[i]).root@) == key
}

/// Some project has a root with this text, which ends in the name.
pub open spec fn is_named_root(
    projects: Map<Seq<char>, ProjectContextView>,
    name: Seq<char>,
    root: Seq<char>,
) -> bool {
    &&& projects.contains_key(normal_path(root))
    &&& projects[normal_path(root)].project.root == root
    &&& file_name_of(root) == Some(name)
}

/// The project whose root is the path or the nearest directory above it.
pub open spec fn nearest_project(
    projects: Map<Seq<char>, ProjectContextView>,
    path: Seq<char>,
) -> Option<ProjectContextView>
    decreases path.len(),
{
    if projects.contains_key(normal_path(path)) {
        Some(projects[normal_path(path)])
    } else {
        match parent_of(path) {
            Some(parent) => if parent.len() < path.len() {
                nearest_project(projects, parent)
            } else {
                None
            },
            None => None,
        }
    }
}

/// What is known of a project, if it is loaded.
pub open spec fn opt_project(project: Option<ProjectContext>) -> Option<ProjectContextView> {
    match project {
        Some(project) => Some(project@),
        None => None,
    }
}

/// What is to be done once a project is added.
pub open spec fn are_effects_of_addition(
    effects: Seq<ContextEffect>,
    root: Seq<char>,
    projects: Map<Seq<char>, ProjectContextView>,
) -> bool {
    &&& effects.len() == 3
    &&& effects[0] is DescribeProjects
    &&& effects[1] matches ContextEffect::WriteConfig(config) && config.wf() && config@
        == saved_projects(projects)
    &&& effects[2] matches ContextEffect::Notify(ContextNotification::ProjectAdded(path)) && path@
        == root
}

/// What comes of the addition of a project, by whether its language server has started.
pub open spec fn adds(
    before: Map<Seq<char>, ProjectContextView>,
    after: Map<Seq<char>, ProjectContextView>,
    project: ProjectView,
    started: Result<(), String>,
    res: Result<Vec<ContextEffect>, String>,
) -> bool {
    match started {
        Err(e) => res == Err::<Vec<ContextEffect>, String>(e) && after == before,
        Ok(_) => {
            &&& after == before.insert(
                normal_path(project.root),
                ProjectContextView { project, is_indexing_lsp: true },
            )
            &&& res matches Ok(effects) && are_effects_of_addition(effects@, project.root, after)
        },
    }
}

/// What is known of the project under a key, if it is loaded.
pub open spec fn gives_project(
    projects: Map<Seq<char>, ProjectContextView>,
    key: Seq<char>,
    project: Option<ProjectContext>,
) -> bool {
    opt_project(project) == if projects.contains_key(key) {
        Some(projects[key])
    } else {
        None
    }
}

/// What comes of a message of the language server.
pub open spec fn takes_note(
    before: Map<Seq<char>, ProjectContextView>,
    after: Map<Seq<char>, ProjectContextView>,
    notification: LspNotification,
) -> bool {
    match notification {
        LspNotification::Indexing { project, is_indexing, .. } => after == if before.contains_key(
            normal_path(project@),
        ) {
            before.insert(
                normal_path(project@),
                ProjectContextView {
                    is_indexing_lsp: is_indexing,
                    ..before[normal_path(project@)]
                },
            )
        } else {
            before
        },
    }
}

/// What is done with a configuration file.
pub open spec fn loads_file(file: ConfigFile, load: ConfigLoad) -> bool {
    match file {
        ConfigFile::Missing => load is Skip,
        ConfigFile::Unreadable(e) => load == ConfigLoad::Fail(e),
        ConfigFile::Content(text) => if trimmed(text@).len() == 0 {
            load is Skip
        } else {
            load == ConfigLoad::Parse(text)
        },
    }
}

/// The roots to load, by what the text of the configuration file was parsed to.
pub open spec fn are_listed_roots(parsed: Result<SerConfig, String>, roots: Seq<String>) -> bool {
    match parsed {
        Ok(config) => texts(roots) == config.projects@.map_values(
            |entry: (String, SerProject)| entry.1.root@,
        ),
        Err(_) => roots.len() == 0,
    }
}

/// What comes of the removal by a name, or by a path whose canonical form is given if it has one.
pub open spec fn removes_meant(
    before: Map<Seq<char>, ProjectContextView>,
    after: Map<Seq<char>, ProjectContextView>,
    path_or_name: Seq<char>,
    canonical: Option<String>,
    project: Option<ProjectContext>,
    effects: Seq<ContextEffect>,
) -> bool {
    if exists|root: Seq<char>| is_named_root(before, path_or_name, root) {
        exists|root: Seq<char>|
            is_named_root(before, path_or_name, root) && removes(
                before,
                after,
                root,
                project,
                effects,
            )
    } else {
        match canonical {
            Some(root) => removes(before, after, root@, project, effects),
            None => after == before && project is None && effects.len() == 0,
        }
    }
}

/// What is to be done once a project is removed.
pub open spec fn are_effects_of_removal(
    effects: Seq<ContextEffect>,
    root: Seq<char>,
    projects: Map<Seq<char>, ProjectContextView>,
) -> bool {
    &&& effects.len() == 2
    &&& effects[0] matches ContextEffect::Notify(ContextNotification::ProjectRemoved(path)) && path@
        == root
    &&& effects[1] matches ContextEffect::WriteConfig(config) && config.wf() && config@
        == saved_projects(projects)
}

/// What comes of the removal of a root: the project, if there was one, and what is to be done.
pub open spec fn removes(
    before: Map<Seq<char>, ProjectContextView>,
    after: Map<Seq<char>, ProjectContextView>,
    root: Seq<char>,
    project: Option<ProjectContext>,
    effects: Seq<ContextEffect>,
) -> bool {
    &&& after == before.remove(normal_path(root))
    &&& if before.contains_key(normal_path(root)) {
        &&& opt_project(project) == Some(before[normal_path(root)])
        &&& are_effects_of_removal(effects, root, after)
    } else {
        project is None && effects.len() == 0
    }
}

/// The configuration file, as it was read.
#[derive(Clone, Debug)]
pub enum ConfigFile {
    Missing,
    Unreadable(String),
    Content(String),
}

/// What is done with a configuration file.
#[derive(Clone, Debug)]
pub enum ConfigLoad {
    /// There is nothing to load.
    Skip,
    /// The file cannot be read.
    Fail(String),
    /// The projects are to be read from the text.
    Parse(String),
}

/// What is known of the root of a project that a configuration file lists.
#[derive(Debug)]
pub struct RootFacts {
    pub exists: bool,
    pub is_dir: bool,
    pub canonical: Result<String, String>,
}

/// The project that is loaded from a configuration file, if its root is a directory with a
/// canonical form.
pub open spec fn loaded_project(facts: RootFacts) -> Option<ProjectView> {
    if facts.exists && facts.is_dir {
        match facts.canonical {
            Ok(root) => Some(bare_project(root@)),
            Err(_) => None,
        }
    } else {
        None
    }
}

/// The project to load for a root that a configuration file lists. It has the canonical form of
/// the root and nothing else; a root that is no directory is passed over.
pub fn load_project(facts: RootFacts) -> (res: Option<Project>)
    ensures
        match res {
            Some(project) => loaded_project(facts) == Some(project@),
            None => loaded_project(facts) is None,
        },
{
    if !facts.exists || !facts.is_dir {
        return None;
    }
    match facts.canonical {
        Ok(root) => Some(Project::new(root)),
        Err(_) => None,
    }
}

/// The entries are projects of the table, by their keys.
proof fn lemma_entry(context: Context, entries: Seq<(String, Record)>, i: int)
    requires
        context.wf(),
        are_entries(records(context.projects), entries),
        0 <= i < entries.len(),
    ensures
        entries[i].1 is Project,
        context@.contains_key(entries[i].0@),
        context@[entries[i].0@] == entries[i].1->Project_0@,
        normal_path(entries[i].1->Project_0.project.root@) == entries[i].0@,
{
    assert(records(context.projects).contains_key(entries[i].0@));
}

impl Context {
    /// A workspace without projects.
    pub fn new(transport: TransportType, config_path: String) -> (res: Context)
        ensures
            res.wf(),
            (res@ == Map::<Seq<char>, ProjectContextView>::empty()),
            res.reached_by() == transport,
            res.saved_at() == config_path,
    {
        let res = Context { projects: new_table(), transport, config_path };
        assert(res@ =~= Map::<Seq<char>, ProjectContextView>::empty());
        res
    }

    /// The host and the port at which the server is reached.
    pub fn address_information(&self) -> (res: (String, u16))
        ensures
            (res.0@, res.1) == address_of(self.reached_by()),
    {
        match &self.transport {
            TransportType::Stdio => ("stdio".to_owned(), 0),
            TransportType::Sse { host, port } => (host.clone(), *port),
            TransportType::StreamableHttp { host, port } => (host.clone(), *port),
        }
    }

    /// What a client is told to reach the server: the template of the transport with the host and
    /// the port in their places.
    pub fn mcp_configuration(&self) -> (res: String)
        ensures
            res@ == configuration_of(self.reached_by()),
    {
        let (host, port) = self.address_information();
        let template = match &self.transport {
            TransportType::Stdio => CONFIG_TEMPLATE_STDIO,
            TransportType::Sse { .. } => CONFIG_TEMPLATE_SSE,
            TransportType::StreamableHttp { .. } => CONFIG_TEMPLATE_STREAMABLE_HTTP,
        };
        proof {
            reveal_strlit("{{HOST}}");
            reveal_strlit("{{PORT}}");
        }
        let with_host = replace(template, "{{HOST}}", host.as_str());
        let digits = decimal(port as u64);
        replace(with_host.as_str(), "{{PORT}}", digits.as_str())
    }

    /// The path of the configuration file.
    pub fn config_path(&self) -> (res: &String)
        ensures
            *res == self.saved_at(),
    {
        &self.config_path
    }

    /// How the server is reached.
    pub fn transport(&self) -> (res: &TransportType)
        ensures
            *res == self.reached_by(),
    {
        &self.transport
    }

    /// The descriptions of the projects, in no particular order. Each root must end in a name.
    pub fn project_descriptions(&self) -> (res: Vec<ProjectDescription>)
        requires
            self.wf(),
            self.all_named(),
        ensures
            are_descriptions(self@, res@),
    {
        let entries = table_entries(&self.projects);
        let mut out: Vec<ProjectDescription> = Vec::new();
        let mut i: usize = 0;
        while i < entries.len()
            invariant
                self.wf(),
                self.all_named(),
                are_entries(records(self.projects), entries@),
                i <= entries@.len(),
                out@.len() == i,
                forall|k: int|
                    0 <= k < i ==> normal_path((#[trigger] out@[k]).root@) == entries@[k].0@
                        && describes(out@[k], self@[entries@[k].0@]),
            decreases entries@.len() - i,
        {
            proof {
                lemma_entry(*self, entries@, i as int);
            }
            match &entries[i].1 {
                Record::Project(context) => {
                    assert(self@.contains_key(entries@[i as int].0@));
                    let name = match path_file_name(context.project.root.as_str()) {
                        Some(name) => name,
                        None => String::new(),
                    };
                    out.push(
                        ProjectDescription {
                            root: context.project.root.clone(),
                            name,
                            is_indexing_lsp: context.is_indexing_lsp,
                        },
                    );
                },
                _ => {
                    assert(false);
                },
            }
            i += 1;
        }
        proof {
            assert forall|k: int| 0 <= k < out@.len() implies self@.contains_key(
                normal_path((#[trigger] out@[k]).root@),
            ) && describes(out@[k], self@[normal_path(out@[k].root@)]) by {
                lemma_entry(*self, entries@, k);
            }
            assert forall|k: int, l: int| 0 <= k < l < out@.len() implies normal_path(
                (#[trigger] out@[k]).root@,
            ) != normal_path((#[trigger] out@[l]).root@) by {
                assert(entries@[k].0@ != entries@[l].0@);
            }
            assert forall|key: Seq<char>| #[trigger] self@.contains_key(key) implies exists|k: int|
                0 <= k < out@.len() && normal_path((#[trigger] out@[k]).root@) == key by {
                assert(records(self.projects).contains_key(key));
                let k = choose|k: int|
                    0 <= k < entries@.len() && (#[trigger] entries@[k]).0@ == key;
                assert(normal_path(out@[k].root@) == key);
            }
        }
        out
    }

    fn has_unnamed_root(&self) -> (res: bool)
        requires
            self.wf(),
        ensures
            res == !self.all_named(),
    {
        let entries = table_entries(&self.projects);
        let mut i: usize = 0;
        while i < entries.len()
            invariant
                self.wf(),
                are_entries(records(self.projects), entries@),
                i <= entries@.len(),
                forall|k: int|
                    0 <= k < i ==> file_name_of(
                        self@[(#[trigger] entries@[k]).0@].project.root,
                    ) is Some,
            decreases entries@.len() - i,
        {
            proof {
                lemma_entry(*self, entries@, i as int);
            }
            if let Record::Project(context) = &entries[i].1 {
                if path_file_name(context.project.root.as_str()).is_none() {
                    assert(self@.contains_key(entries@[i as int].0@));
                    return true;
                }
            }
            i += 1;
        }
        assert forall|key: Seq<char>| #[trigger] self@.contains_key(key) implies file_name_of(
            self@[key].project.root,
        ) is Some by {
            assert(records(self.projects).contains_key(key));
            let k = choose|k: int| 0 <= k < entries@.len() && (#[trigger] entries@[k]).0@ == key;
            assert(file_name_of(self@[entries@[k].0@].project.root) is Some);
        }
        false
    }

    /// The descriptions of the projects, unless the root of one ends in no name.
    pub fn named_descriptions(&self) -> (res: Option<Vec<ProjectDescription>>)
        requires
            self.wf(),
        ensures
            res is Some <==> self.all_named(),
            res matches Some(descriptions) ==> are_descriptions(self@, descriptions@),
    {
        if self.has_unnamed_root() {
            None
        } else {
            Some(self.project_descriptions())
        }
    }

    /// The message that describes the projects, unless the root of one ends in no name.
    pub fn request_project_descriptions(&self) -> (res: Option<ContextNotification>)
        requires
            self.wf(),
        ensures
            res is Some <==> self.all_named(),
            res matches Some(notification) ==> {
                notification matches ContextNotification::ProjectDescriptions(descriptions)
                    && are_descriptions(self@, descriptions@)
            },
    {
        match self.named_descriptions() {
            Some(descriptions) => Some(ContextNotification::ProjectDescriptions(descriptions)),
            None => None,
        }
    }

    /// The configuration that lists the projects as they are.
    pub fn config_to_write(&self) -> (res: SerConfig)
        requires
            self.wf(),
        ensures
            res.wf(),
            res@ == saved_projects(self@),
    {
        let entries = table_entries(&self.projects);
        let mut projects: Vec<(String, SerProject)> = Vec::new();
        let mut i: usize = 0;
        while i < entries.len()
            invariant
                self.wf(),
                are_entries(records(self.projects), entries@),
                i <= entries@.len(),
                projects@.len() == i,
                forall|k: int|
                    0 <= k < i ==> normal_path((#[trigger] projects@[k]).0@) == entries@[k].0@
                        && projects@[k].0@ == self@[entries@[k].0@].project.root
                        && projects@[k].1@ == saved_project(self@[entries@[k].0@].project),
            decreases entries@.len() - i,
        {
            proof {
                lemma_entry(*self, entries@, i as int);
            }
            match &entries[i].1 {
                Record::Project(context) => {
                    projects.push(
                        (context.project.root.clone(), save_project(&context.project)),
                    );
                },
                _ => {
                    assert(false);
                },
            }
            i += 1;
        }
        let res = SerConfig { projects };
        proof {
            let map = saved_projects(self@);
            assert forall|k: int, l: int| 0 <= k < l < res.projects@.len() implies normal_path(
                (#[trigger] res.projects@[k]).0@,
            ) != normal_path((#[trigger] res.projects@[l]).0@) by {
                assert(entries@[k].0@ != entries@[l].0@);
            }
            assert forall|k: int| 0 <= k < res.projects@.len() implies map.contains_key(
                normal_path((#[trigger] res.projects@[k]).0@),
            ) && map[normal_path(res.projects@[k].0@)] == listed(res.projects@[k]) by {
                lemma_entry(*self, entries@, k);
            }
            assert forall|key: Seq<char>| #[trigger] map.contains_key(key) implies exists|k: int|
                0 <= k < res.projects@.len() && normal_path((#[trigger] res.projects@[k]).0@)
                    == key by {
                assert(records(self.projects).contains_key(key));
                let k = choose|k: int|
                    0 <= k < entries@.len() && (#[trigger] entries@[k]).0@ == key;
                assert(normal_path(res.projects@[k].0@) == key);
            }
            crate::config::lemma_config_is(res.projects@, map);
        }
        res
    }

    /// Looks at the configuration file of the workspace. One that is missing or blank is passed over.
    pub fn load_config(&self, file: ConfigFile) -> (res: ConfigLoad)
        ensures
            loads_file(file, res),
    {
        match file {
            ConfigFile::Missing => ConfigLoad::Skip,
            ConfigFile::Unreadable(e) => ConfigLoad::Fail(e),
            ConfigFile::Content(text) => {
                let bare = trim(text.as_str());
                if bare.as_str().unicode_len() == 0 {
                    ConfigLoad::Skip
                } else {
                    ConfigLoad::Parse(text)
                }
            },
        }
    }

    /// The roots of the projects to load, by what the text of the configuration file was parsed to:
    /// those that it lists, in the order of its entries. A text that does not parse is passed over.
    pub fn listed_roots(&self, parsed: Result<SerConfig, String>) -> (res: Vec<String>)
        ensures
            are_listed_roots(parsed, res@),
    {
        let mut roots: Vec<String> = Vec::new();
        if let Ok(config) = &parsed {
            let ghost all = config.projects@.map_values(
                |entry: (String, SerProject)| entry.1.root@,
            );
            let mut i: usize = 0;
            assert(texts(roots@) =~= all.take(0));
            while i < config.projects.len()
                invariant
                    i <= config.projects@.len(),
                    all == config.projects@.map_values(
                        |entry: (String, SerProject)| entry.1.root@,
                    ),
                    texts(roots@) == all.take(i as int),
                decreases config.projects@.len() - i,
            {
                let ghost before = texts(roots@);
                roots.push(config.projects[i].1.root.clone());
                assert(texts(roots@) =~= before.push(all[i as int]));
                i += 1;
                assert(texts(roots@) =~= all.take(i as int));
            }
            assert(all.take(i as int) =~= all);
        }
        roots
    }

    /// Adds a project, or puts it in the place of the one with its root, once its language server
    /// has started; where the server has failed to start, nothing changes.
    pub fn add_project(
        &mut self,
        project: Project,
        started: Result<(), String>,
    ) -> (res: Result<Vec<ContextEffect>, String>)
        requires
            old(self).wf(),
        ensures
            final(self).wf(),
            final(self).reached_by() == old(self).reached_by(),
            final(self).saved_at() == old(self).saved_at(),
            adds(old(self)@, final(self)@, project@, started, res),
    {
        if let Err(e) = started {
            return Err(e);
        }
        let root = project.root.clone();
        let key = path_normal(root.as_str());
        let ghost view = ProjectContextView { project: project@, is_indexing_lsp: true };
        let ghost before = self@;
        table_insert(
            &mut self.projects,
            key,
            Record::Project(ProjectContext { project, is_indexing_lsp: true }),
        );
        assert(self@ =~= before.insert(normal_path(project.root@), view));
        let mut effects: Vec<ContextEffect> = Vec::new();
        effects.push(ContextEffect::DescribeProjects);
        effects.push(ContextEffect::WriteConfig(self.config_to_write()));
        effects.push(ContextEffect::Notify(ContextNotification::ProjectAdded(root)));
        Ok(effects)
    }

    /// The root of a project whose directory has the name, if there is one.
    pub fn find_project_by_name(&self, name: &str) -> (res: Option<String>)
        requires
            self.wf(),
        ensures
            match res {
                Some(root) => is_named_root(self@, name@, root@),
                None => forall|root: Seq<char>| !is_named_root(self@, name@, root),
            },
    {
        let entries = table_entries(&self.projects);
        let mut i: usize = 0;
        while i < entries.len()
            invariant
                self.wf(),
                are_entries(records(self.projects), entries@),
                i <= entries@.len(),
                forall|k: int|
                    0 <= k < i ==> file_name_of(self@[(#[trigger] entries@[k]).0@].project.root)
                        != Some(name@),
            decreases entries@.len() - i,
        {
            proof {
                lemma_entry(*self, entries@, i as int);
            }
            if let Record::Project(context) = &entries[i].1 {
                if let Some(own) = path_file_name(context.project.root.as_str()) {
                    if equal(own.as_str(), name) {
                        return Some(context.project.root.clone());
                    }
                }
            }
            i += 1;
        }
        assert forall|root: Seq<char>| !is_named_root(self@, name@, root) by {
            if is_named_root(self@, name@, root) {
                let key = normal_path(root);
                assert(records(self.projects).contains_key(key));
                let k = choose|k: int|
                    0 <= k < entries@.len() && (#[trigger] entries@[k]).0@ == key;
                assert(file_name_of(self@[entries@[k].0@].project.root) != Some(name@));
            }
        }
        None
    }

    /// Removes the project with a root.
    pub fn remove_project(&mut self, root: &str) -> (res: (
        Option<ProjectContext>,
        Vec<ContextEffect>,
    ))
        requires
            old(self).wf(),
        ensures
            final(self).wf(),
            final(self).reached_by() == old(self).reached_by(),
            final(self).saved_at() == old(self).saved_at(),
            removes(old(self)@, final(self)@, root@, res.0, res.1@),
    {
        let key = path_normal(root);
        let ghost before = self@;
        let removed = table_remove(&mut self.projects, key.as_str());
        assert(self@ =~= before.remove(normal_path(root@)));
        let mut effects: Vec<ContextEffect> = Vec::new();
        match removed {
            Some(Record::Project(context)) => {
                effects.push(
                    ContextEffect::Notify(ContextNotification::ProjectRemoved(root.to_owned())),
                );
                effects.push(ContextEffect::WriteConfig(self.config_to_write()));
                (Some(context), effects)
            },
            _ => (None, effects),
        }
    }

    /// Removes a project whose directory has the name; where there is none, the project at the
    /// path, whose canonical form is given if it has one.
    pub fn remove_project_by_path_or_name(
        &mut self,
        path_or_name: &str,
        canonical: Option<String>,
    ) -> (res: (Option<ProjectContext>, Vec<ContextEffect>))
        requires
            old(self).wf(),
        ensures
            final(self).wf(),
            final(self).reached_by() == old(self).reached_by(),
            final(self).saved_at() == old(self).saved_at(),
            removes_meant(
                old(self)@,
                final(self)@,
                path_or_name@,
                canonical,
                res.0,
                res.1@,
            ),
    {
        let ghost before = self@;
        match self.find_project_by_name(path_or_name) {
            Some(root) => {
                let res = self.remove_project(root.as_str());
                assert(is_named_root(before, path_or_name@, root@));
                res
            },
            None => match canonical {
                Some(root) => self.remove_project(root.as_str()),
                None => (None, Vec::new()),
            },
        }
    }

    /// What is known of the project with a root, if it is loaded.
    pub fn get_project(&self, root: &str) -> (res: Option<ProjectContext>)
        requires
            self.wf(),
        ensures
            gives_project(self@, normal_path(root@), res),
    {
        let key = path_normal(root);
        match table_get(&self.projects, key.as_str()) {
            Some(Record::Project(context)) => Some(context),
            _ => None,
        }
    }

    /// What is known of the project in which a path lies, if it is loaded: the one whose root is
    /// the path or the nearest directory above it.
    pub fn get_project_by_path(&self, path: &str) -> (res: Option<ProjectContext>)
        requires
            self.wf(),
        ensures
            opt_project(res) == nearest_project(self@, path@),
    {
        let mut current = path.to_owned();
        loop
            invariant
                self.wf(),
                nearest_project(self@, path@) == nearest_project(self@, current@),
            decreases current@.len(),
        {
            if let Some(project) = self.get_project(current.as_str()) {
                return Some(project);
            }
            match path_parent(current.as_str()) {
                Some(parent) => {
                    current = parent;
                },
                None => return None,
            }
        }
    }

    /// Takes note of a message of the language server, and passes it on. The project that it is
    /// about is being indexed from then on, or is not.
    pub fn on_lsp_notification(&mut self, notification: LspNotification) -> (res:
        ContextNotification)
        requires
            old(self).wf(),
        ensures
            final(self).wf(),
            final(self).reached_by() == old(self).reached_by(),
            final(self).saved_at() == old(self).saved_at(),
            res == ContextNotification::Lsp(notification),
            takes_note(old(self)@, final(self)@, notification),
    {
        let ghost before = self@;
        match &notification {
            LspNotification::Indexing { project, is_indexing, .. } => {
                let key = path_normal(project.as_str());
                if let Some(Record::Project(context)) = table_get(&self.projects, key.as_str()) {
                    let ghost view = ProjectContextView {
                        is_indexing_lsp: *is_indexing,
                        ..before[normal_path(project@)]
                    };
                    table_insert(
                        &mut self.projects,
                        key,
                        Record::Project(
                            ProjectContext {
                                project: context.project,
                                is_indexing_lsp: *is_indexing,
                            },
                        ),
                    );
                    assert(self@ =~= before.insert(normal_path(project@), view));
                }
            },
        }
        ContextNotification::Lsp(notification)
    }

    /// Passes a message of the tools on.
    pub fn send_mcp_notification(&self, notification: McpNotification) -> (res:
        ContextNotification)
        ensures
            res == ContextNotification::Mcp(notification),
    {
        ContextNotification::Mcp(notification)
    }

    /// The roots of the projects, each once, in no particular order.
    pub fn project_roots(&self) -> (res: Vec<String>)
        requires
            self.wf(),
        ensures
            are_roots(self@, res@),
    {
        let entries = table_entries(&self.projects);
        let mut out: Vec<String> = Vec::new();
        let mut i: usize = 0;
        while i < entries.len()
            invariant
                self.wf(),
                are_entries(records(self.projects), entries@),
                i <= entries@.len(),
                out@.len() == i,
                forall|k: int|
                    0 <= k < i ==> normal_path((#[trigger] out@[k])@) == entries@[k].0@
                        && self@[entries@[k].0@].project.root == out@[k]@,
            decreases entries@.len() - i,
        {
            proof {
                lemma_entry(*self, entries@, i as int);
            }
            match &entries[i].1 {
                Record::Project(context) => {
                    out.push(context.project.root.clone());
                },
                _ => {
                    assert(false);
                },
            }
            i += 1;
        }
        proof {
            assert forall|k: int| 0 <= k < out@.len() implies self@.contains_key(
                normal_path((#[trigger] out@[k])@),
            ) && self@[normal_path(out@[k]@)].project.root == out@[k]@ by {
                lemma_entry(*self, entries@, k);
            }
            assert forall|k: int, l: int| 0 <= k < l < out@.len() implies normal_path(
                (#[trigger] out@[k])@,
            ) != normal_path((#[trigger] out@[l])@) by {
                assert(entries@[k].0@ != entries@[l].0@);
            }
            assert forall|key: Seq<char>| #[trigger] self@.contains_key(key) implies exists|k: int|
                0 <= k < out@.len() && normal_path((#[trigger] out@[k])@) == key by {
                assert(records(self.projects).contains_key(key));
                let k = choose|k: int|
                    0 <= k < entries@.len() && (#[trigger] entries@[k]).0@ == key;
                assert(normal_path(out@[k]@) == key);
            }
        }
        out
    }

    /// The roots of the projects, whose language servers are to be shut down at the end.
    pub fn shutdown_all(&self) -> (res: Vec<String>)
        requires
            self.wf(),
        ensures
            are_roots(self@, res@),
    {
        self.project_roots()
    }
}

/// A new project that is added is there under its root, is the one in which its root lies, and is
/// one of those with its name; its removal leaves the workspace as it was.
pub proof fn law_added_project_is_found(
    before: Map<Seq<char>, ProjectContextView>,
    after: Map<Seq<char>, ProjectContextView>,
    project: ProjectView,
)
    requires
        !before.contains_key(normal_path(project.root)),
        after == before.insert(
            normal_path(project.root),
            ProjectContextView { project, is_indexing_lsp: true },
        ),
    ensures
        after.contains_key(normal_path(project.root)),
        after[normal_path(project.root)].project == project,
        nearest_project(after, project.root) == Some(after[normal_path(project.root)]),
        file_name_of(project.root) matches Some(name) ==> is_named_root(after, name, project.root),
        after.remove(normal_path(project.root)) == before,
{
    assert(after.remove(normal_path(project.root)) =~= before);
}

/// A workspace that is saved and loaded again has the same roots, as long as each of them is a
/// directory whose canonical form is itself. The projects come back without what else was known
/// of them.
pub proof fn law_saved_projects_load(
    projects: Map<Seq<char>, ProjectContextView>,
    key: Seq<char>,
    facts: RootFacts,
)
    requires
        projects.contains_key(key),
        facts.exists,
        facts.is_dir,
        facts.canonical matches Ok(root) && root@ == saved_projects(projects)[key].project.root,
    ensures
        saved_projects(projects).dom() == projects.dom(),
        loaded_project(facts) == Some(bare_project(projects[key].project.root)),
{
    assert(saved_projects(projects).dom() =~= projects.dom());
}

/// What is found for a root that a configuration file lists, and whether the language server of its
/// project starts.
pub struct ListedRoot {
    pub facts: RootFacts,
    pub started: Result<(), String>,
}

/// The project that a listed root comes to: the root is a directory with a canonical form, and the
/// language server starts.
pub open spec fn project_from(listed: ListedRoot) -> Option<ProjectView> {
    match listed.started {
        Ok(_) => loaded_project(listed.facts),
        Err(_) => None,
    }
}

/// The listed root comes to a project whose root has the normal form.
pub open spec fn loads(listed: ListedRoot, key: Seq<char>) -> bool {
    project_from(listed) matches Some(project) && normal_path(project.root) == key
}

/// The projects once those of the listed roots are added, one after the other.
pub open spec fn projects_loaded(
    projects: Map<Seq<char>, ProjectContextView>,
    listed: Seq<ListedRoot>,
) -> Map<Seq<char>, ProjectContextView>
    decreases listed.len(),
{
    if listed.len() == 0 {
        projects
    } else {
        let rest = projects_loaded(projects, listed.drop_last());
        match project_from(listed.last()) {
            Some(project) => rest.insert(
                normal_path(project.root),
                ProjectContextView { project, is_indexing_lsp: true },
            ),
            None => rest,
        }
    }
}

/// Loading a configuration unloads nothing. The roots are those that were there, and the canonical
/// form of each listed root that is a directory and whose language server starts. A project that
/// is loaded so has that root and nothing else, and is being indexed; every other project is as it
/// was.
pub proof fn law_load_adds_listed_projects(
    projects: Map<Seq<char>, ProjectContextView>,
    listed: Seq<ListedRoot>,
    key: Seq<char>,
)
    ensures
        ({
            let after = projects_loaded(projects, listed);
            let named = exists|i: int| 0 <= i < listed.len() && loads(#[trigger] listed[i], key);
            &&& after.contains_key(key) <==> projects.contains_key(key) || named
            &&& !named && projects.contains_key(key) ==> after[key] == projects[key]
            &&& named ==> exists|i: int|
                0 <= i < listed.len() && loads(#[trigger] listed[i], key) && after[key]
                    == (ProjectContextView {
                    project: bare_project(listed[i].facts.canonical->Ok_0@),
                    is_indexing_lsp: true,
                })
        }),
    decreases listed.len(),
{
    if listed.len() > 0 {
        let n = listed.len() - 1;
        let rest = listed.drop_last();
        law_load_adds_listed_projects(projects, rest, key);
        assert forall|i: int| 0 <= i < n implies rest[i] == #[trigger] listed[i] by {}
        if loads(listed[n], key) {
            assert(loads(listed.last(), key));
        } else {
            if exists|i: int| 0 <= i < listed.len() && loads(#[trigger] listed[i], key) {
                let i = choose|i: int| 0 <= i < listed.len() && loads(#[trigger] listed[i], key);
                assert(loads(rest[i], key));
            }
            if exists|i: int| 0 <= i < rest.len() && loads(#[trigger] rest[i], key) {
                let before = projects_loaded(projects, rest);
                let i = choose|i: int|
                    0 <= i < rest.len() && loads(#[trigger] rest[i], key) && before[key]
                        == (ProjectContextView {
                        project: bare_project(rest[i].facts.canonical->Ok_0@),
                        is_indexing_lsp: true,
                    });
                assert(loads(listed[i], key));
            }
        }
    }
}

/// A listed root that comes to no project is skipped alone: the others load as if it were not
/// listed.
pub proof fn law_unfit_root_is_skipped_alone(
    projects: Map<Seq<char>, ProjectContextView>,
    listed: Seq<ListedRoot>,
    i: int,
)
    requires
        0 <= i < listed.len(),
        project_from(listed[i]) is None,
    ensures
        projects_loaded(projects, listed) == projects_loaded(projects, listed.remove(i)),
    decreases listed.len(),
{
    let others = listed.remove(i);
    let n = listed.len() - 1;
    if i == n {
        assert(others =~= listed.drop_last());
    } else {
        law_unfit_root_is_skipped_alone(projects, listed.drop_last(), i);
        assert(others.drop_last() =~= listed.drop_last().remove(i));
        assert(others.last() == listed.last());
    }
}

/// What is found under a root is the project that is loaded there, with its root, the crates that it
/// leaves out, its configuration and whether it is being indexed; nothing is found where none is.
pub proof fn law_found_project_is_the_loaded_one(
    projects: Map<Seq<char>, ProjectContextView>,
    key: Seq<char>,
    found: Option<ProjectContext>,
)
    requires
        gives_project(projects, key, found),
    ensures
        found is Some <==> projects.contains_key(key),
        found matches Some(own) ==> {
            &&& own.project.root@ == projects[key].project.root
            &&& own.project.ignore_crates@.len() == projects[key].project.ignore_crates.len()
            &&& forall|i: int|
                0 <= i < own.project.ignore_crates@.len() ==> (
                #[trigger] own.project.ignore_crates@[i])@
                    == projects[key].project.ignore_crates[i]
            &&& own.project.rust_analyzer is Some <==> projects[key].project.rust_analyzer is Some
            &&& own.project.rust_analyzer is Some ==> own.project.rust_analyzer->0.text@
                == projects[key].project.rust_analyzer->0
            &&& own.is_indexing_lsp == projects[key].is_indexing_lsp
        },
{
    if let Some(own) = found {
        law_texts_are_those_of_the_strings(own.project.ignore_crates@);
        assert(own@ == projects[key]);
    }
}

/// The `n`-th directory above a path.
pub open spec fn directory_above(path: Seq<char>, n: nat) -> Option<Seq<char>>
    decreases n,
{
    if n == 0 {
        Some(path)
    } else {
        match directory_above(path, (n - 1) as nat) {
            Some(below) => parent_of(below),
            None => None,
        }
    }
}

proof fn lemma_directory_above_parent(path: Seq<char>, parent: Seq<char>, n: nat)
    requires
        parent_of(path) == Some(parent),
    ensures
        directory_above(path, n + 1) == directory_above(parent, n),
    decreases n,
{
    if n == 0 {
        reveal_with_fuel(directory_above, 2);
    } else {
        lemma_directory_above_parent(path, parent, (n - 1) as nat);
    }
}

/// The project in which a path lies is the one whose root is the nearest directory from the path
/// upwards at which a project is loaded.
pub proof fn law_path_lies_in_the_nearest_project(
    projects: Map<Seq<char>, ProjectContextView>,
    path: Seq<char>,
    n: nat,
)
    requires
        forall|m: nat|
            m <= n ==> (#[trigger] directory_above(path, m) is Some),
        forall|m: nat|
            m < n ==> directory_above(path, m + 1)->0.len() < (#[trigger] directory_above(
                path,
                m,
            ))->0.len(),
        forall|m: nat|
            m < n ==> !projects.contains_key(normal_path((#[trigger] directory_above(path, m))->0)),
        projects.contains_key(normal_path(directory_above(path, n)->0)),
    ensures
        nearest_project(projects, path) == Some(projects[normal_path(directory_above(path, n)->0)]),
    decreases n,
{
    assert(directory_above(path, 0) is Some);
    if n > 0 {
        assert(!projects.contains_key(normal_path(directory_above(path, 0)->0)));
        assert(directory_above(path, 1) is Some);
        assert(directory_above(path, 0 + 1)->0.len() < directory_above(path, 0)->0.len());
        reveal_with_fuel(directory_above, 2);
        let parent = parent_of(path)->0;
        assert(parent_of(path) == Some(parent));
        assert forall|m: nat| m <= n - 1 implies (#[trigger] directory_above(parent, m) is Some) by {
            lemma_directory_above_parent(path, parent, m);
            assert(directory_above(path, m + 1) is Some);
        }
        assert forall|m: nat| m < n - 1 implies directory_above(parent, m + 1)->0.len() < (
        #[trigger] directory_above(parent, m))->0.len() by {
            lemma_directory_above_parent(path, parent, m);
            lemma_directory_above_parent(path, parent, m + 1);
            assert(directory_above(path, (m + 1) + 1)->0.len() < directory_above(
                path,
                m + 1,
            )->0.len());
        }
        assert forall|m: nat| m < n - 1 implies !projects.contains_key(
            normal_path((#[trigger] directory_above(parent, m))->0),
        ) by {
            lemma_directory_above_parent(path, parent, m);
            assert(!projects.contains_key(normal_path(directory_above(path, m + 1)->0)));
        }
        lemma_directory_above_parent(path, parent, (n - 1) as nat);
        law_path_lies_in_the_nearest_project(projects, parent, (n - 1) as nat);
    }
}

/// A path lies in no project where none is loaded at the path or at any directory above it.
pub proof fn law_path_below_no_project_lies_in_none(
    projects: Map<Seq<char>, ProjectContextView>,
    path: Seq<char>,
)
    requires
        forall|m: nat|
            (#[trigger] directory_above(path, m)) is Some ==> !projects.contains_key(
                normal_path(directory_above(path, m)->0),
            ),
    ensures
        nearest_project(projects, path) is None,
    decreases path.len(),
{
    assert(directory_above(path, 0) is Some);
    if let Some(parent) = parent_of(path) {
        if parent.len() < path.len() {
            assert forall|m: nat|
                (#[trigger] directory_above(parent, m)) is Some implies !projects.contains_key(
                normal_path(directory_above(parent, m)->0),
            ) by {
                lemma_directory_above_parent(path, parent, m);
                assert(directory_above(path, m + 1) is Some);
            }
            law_path_below_no_project_lies_in_none(projects, parent);
        }
    }
}

/// A message of the language server changes whether its project is being indexed, and nothing else
/// of it; the other projects stay as they are, and none is added.
pub proof fn law_message_marks_its_project_alone(
    before: Map<Seq<char>, ProjectContextView>,
    after: Map<Seq<char>, ProjectContextView>,
    project: String,
    is_indexing: bool,
    progress: Option<IndexingProgress>,
    key: Seq<char>,
)
    requires
        takes_note(
            before,
            after,
            LspNotification::Indexing { project, is_indexing, progress },
        ),
    ensures
        after.contains_key(key) <==> before.contains_key(key),
        after.contains_key(key) ==> after[key].project == before[key].project,
        after.contains_key(key) && key == normal_path(project@) ==> after[key].is_indexing_lsp
            == is_indexing,
        after.contains_key(key) && key != normal_path(project@) ==> after[key].is_indexing_lsp
            == before[key].is_indexing_lsp,
{
}

/// An addition loads the project under its root, as one that is being indexed, and leaves the others
/// as they are. Where the language server has not started, nothing changes and its error comes back.
/// Then the projects are described, the configuration with all of them is written, and the root is
/// told, in this order.
pub proof fn law_addition_loads_the_project(
    before: Map<Seq<char>, ProjectContextView>,
    after: Map<Seq<char>, ProjectContextView>,
    project: Project,
    started: Result<(), String>,
    res: Result<Vec<ContextEffect>, String>,
    other: Seq<char>,
)
    requires
        adds(before, after, project@, started, res),
        other != normal_path(project.root@),
    ensures
        res is Ok <==> started is Ok,
        started matches Err(e) ==> res->Err_0 == e && after == before,
        after.contains_key(other) <==> before.contains_key(other),
        after.contains_key(other) ==> after[other] == before[other],
        started is Ok ==> {
            let own = after[normal_path(project.root@)];
            let effects = res->Ok_0@;
            &&& after.contains_key(normal_path(project.root@))
            &&& own.project.root == project.root@
            &&& own.project.ignore_crates.len() == project.ignore_crates@.len()
            &&& forall|i: int|
                0 <= i < project.ignore_crates@.len() ==> #[trigger] own.project.ignore_crates[i]
                    == project.ignore_crates@[i]@
            &&& own.is_indexing_lsp
            &&& effects.len() == 3
            &&& effects[0] is DescribeProjects
            &&& effects[1] is WriteConfig
            &&& effects[1]->WriteConfig_0@.dom() == after.dom()
            &&& effects[2] matches ContextEffect::Notify(ContextNotification::ProjectAdded(root))
                && root@ == project.root@
        },
{
    if started is Ok {
        assert(saved_projects(after).dom() =~= after.dom());
    }
}

/// The configuration that is written lists every project, with its root and the crates that it
/// leaves out, under its root, and nothing else.
pub proof fn law_written_configuration_lists_every_project(
    projects: Map<Seq<char>, ProjectContextView>,
    config: SerConfig,
    key: Seq<char>,
)
    requires
        config.wf(),
        config@ == saved_projects(projects),
    ensures
        config@.contains_key(key) <==> projects.contains_key(key),
        projects.contains_key(key) ==> exists|i: int|
            {
                let (path, project) = #[trigger] config.projects@[i];
                &&& 0 <= i < config.projects@.len()
                &&& normal_path(path@) == key
                &&& path@ == projects[key].project.root
                &&& project.root@ == projects[key].project.root
                &&& project.ignore_crates@.len() == projects[key].project.ignore_crates.len()
                &&& forall|k: int|
                    0 <= k < project.ignore_crates@.len() ==> (#[trigger] project.ignore_crates@[k])@
                        == projects[key].project.ignore_crates[k]
            },
        forall|i: int|
            0 <= i < config.projects@.len() ==> projects.contains_key(
                normal_path((#[trigger] config.projects@[i]).0@),
            ),
{
    assert forall|i: int| 0 <= i < config.projects@.len() implies projects.contains_key(
        normal_path((#[trigger] config.projects@[i]).0@),
    ) by {
        law_configuration_lists_its_entries(config, key, i);
    }
    if projects.contains_key(key) {
        assert(config@.contains_key(key));
        if config.projects@.len() == 0 {
            assert(config@ =~= Map::<Seq<char>, ListedProject>::empty());
        }
        law_configuration_lists_its_entries(config, key, 0);
        let i = choose|i: int|
            0 <= i < config.projects@.len() && normal_path((#[trigger] config.projects@[i]).0@)
                == key;
        law_configuration_lists_its_entries(config, key, i);
        let project = config.projects@[i].1;
        law_texts_are_those_of_the_strings(project.ignore_crates@);
        assert forall|k: int| 0 <= k < project.ignore_crates@.len() implies (
        #[trigger] project.ignore_crates@[k])@ == projects[key].project.ignore_crates[k] by {
            assert(config@[key].project.ignore_crates[k] == project.ignore_crates@[k]@);
        }
    }
}

/// A removal takes the project at the root out and gives it back; the others stay as they are. Then
/// the root is told and the configuration without it is written. Where no project has the root,
/// nothing is done.
pub proof fn law_removal_unloads_one_project(
    before: Map<Seq<char>, ProjectContextView>,
    after: Map<Seq<char>, ProjectContextView>,
    root: Seq<char>,
    project: Option<ProjectContext>,
    effects: Seq<ContextEffect>,
    other: Seq<char>,
)
    requires
        removes(before, after, root, project, effects),
        other != normal_path(root),
    ensures
        !after.contains_key(normal_path(root)),
        after.contains_key(other) <==> before.contains_key(other),
        after.contains_key(other) ==> after[other] == before[other],
        project is Some <==> before.contains_key(normal_path(root)),
        project matches Some(own) ==> own.project@ == before[normal_path(root)].project
            && own.is_indexing_lsp == before[normal_path(root)].is_indexing_lsp,
        project is None ==> effects.len() == 0,
        project is Some ==> {
            &&& effects.len() == 2
            &&& effects[0] matches ContextEffect::Notify(ContextNotification::ProjectRemoved(path))
                && path@ == root
            &&& effects[1] is WriteConfig
            &&& effects[1]->WriteConfig_0@.dom() == before.dom().remove(normal_path(root))
        },
{
    if project is Some {
        assert(saved_projects(after).dom() =~= before.dom().remove(normal_path(root)));
    }
}

/// A removal by a name takes out a project whose directory has that name, before it looks at the
/// path; where there is none, it takes out the project at the path and no other.
pub proof fn law_removal_prefers_the_name(
    before: Map<Seq<char>, ProjectContextView>,
    after: Map<Seq<char>, ProjectContextView>,
    path_or_name: Seq<char>,
    canonical: Option<String>,
    project: Option<ProjectContext>,
    effects: Seq<ContextEffect>,
    root: Seq<char>,
)
    requires
        removes_meant(before, after, path_or_name, canonical, project, effects),
    ensures
        before.contains_key(normal_path(root)) && before[normal_path(root)].project.root == root
            && file_name_of(root) == Some(path_or_name) ==> project is Some && file_name_of(
            project->0.project.root@,
        ) == Some(path_or_name) && after == before.remove(normal_path(project->0.project.root@)),
        (forall|own: Seq<char>|
            !(before.contains_key(#[trigger] normal_path(own)) && before[normal_path(
                own,
            )].project.root == own && file_name_of(own) == Some(path_or_name))) ==> {
            &&& canonical is Some ==> after == before.remove(normal_path(canonical->0@))
            &&& canonical is Some ==> (project is Some <==> before.contains_key(
                normal_path(canonical->0@),
            ))
            &&& canonical is None ==> after == before && project is None && effects.len() == 0
        },
{
    if is_named_root(before, path_or_name, root) {
        let own = choose|own: Seq<char>|
            is_named_root(before, path_or_name, own) && removes(
                before,
                after,
                own,
                project,
                effects,
            );
        assert(project->0@ == before[normal_path(own)]);
    }
    if forall|own: Seq<char>|
        !(before.contains_key(#[trigger] normal_path(own)) && before[normal_path(own)].project.root
            == own && file_name_of(own) == Some(path_or_name)) {
        assert forall|own: Seq<char>| !is_named_root(before, path_or_name, own) by {
            assert(!(before.contains_key(normal_path(own)) && before[normal_path(own)].project.root
                == own && file_name_of(own) == Some(path_or_name)));
        }
    }
}

/// Every project is described once, by its root, the name of its directory and whether it is being
/// indexed, and nothing else is described.
pub proof fn law_every_project_is_described(
    projects: Map<Seq<char>, ProjectContextView>,
    descriptions: Seq<ProjectDescription>,
    key: Seq<char>,
)
    requires
        are_descriptions(projects, descriptions),
    ensures
        projects.contains_key(key) ==> exists|i: int|
            {
                let own = #[trigger] descriptions[i];
                &&& 0 <= i < descriptions.len()
                &&& own.root@ == projects[key].project.root
                &&& file_name_of(projects[key].project.root) == Some(own.name@)
                &&& own.is_indexing_lsp == projects[key].is_indexing_lsp
            },
        forall|i: int|
            0 <= i < descriptions.len() ==> projects.contains_key(
                normal_path((#[trigger] descriptions[i]).root@),
            ),
        forall|i: int, j: int|
            0 <= i < j < descriptions.len() ==> (#[trigger] descriptions[i]).root@ != (
            #[trigger] descriptions[j]).root@,
{
    assert forall|i: int, j: int| 0 <= i < j < descriptions.len() implies (
    #[trigger] descriptions[i]).root@ != (#[trigger] descriptions[j]).root@ by {
        assert(normal_path(descriptions[i].root@) != normal_path(descriptions[j].root@));
    }
    if projects.contains_key(key) {
        let i = choose|i: int|
            0 <= i < descriptions.len() && normal_path((#[trigger] descriptions[i]).root@) == key;
        assert(describes(descriptions[i], projects[normal_path(descriptions[i].root@)]));
    }
}

/// The root of every project is listed once, and nothing else is.
pub proof fn law_every_root_is_listed(
    projects: Map<Seq<char>, ProjectContextView>,
    roots: Seq<String>,
    key: Seq<char>,
)
    requires
        are_roots(projects, roots),
    ensures
        projects.contains_key(key) ==> exists|i: int|
            0 <= i < roots.len() && (#[trigger] roots[i])@ == projects[key].project.root,
        forall|i: int|
            0 <= i < roots.len() ==> projects.contains_key(normal_path((#[trigger] roots[i])@)),
        forall|i: int, j: int|
            0 <= i < j < roots.len() ==> (#[trigger] roots[i])@ != (#[trigger] roots[j])@,
{
    assert forall|i: int, j: int| 0 <= i < j < roots.len() implies (#[trigger] roots[i])@ != (
    #[trigger] roots[j])@ by {
        assert(normal_path(roots[i]@) != normal_path(roots[j]@));
    }
    if projects.contains_key(key) {
        let i = choose|i: int| 0 <= i < roots.len() && normal_path((#[trigger] roots[i])@) == key;
        assert(projects[normal_path(roots[i]@)].project.root == roots[i]@);
    }
}

/// A file that holds anything but white space is parsed as it stands, one that is missing or blank is
/// passed over, and one that cannot be read is an error.
pub proof fn law_blank_file_is_passed_over(text: String, error: String, load: ConfigLoad, i: int)
    ensures
        loads_file(ConfigFile::Missing, load) ==> load is Skip,
        loads_file(ConfigFile::Unreadable(error), load) ==> load == ConfigLoad::Fail(error),
        loads_file(ConfigFile::Content(text), load) && 0 <= i < text@.len() && !is_space(text@[i])
            ==> load == ConfigLoad::Parse(text),
        loads_file(ConfigFile::Content(text), load) && (forall|k: int|
            0 <= k < text@.len() ==> is_space(#[trigger] text@[k])) ==> load is Skip,
{
    lemma_trimmed(text@);
    if forall|k: int| 0 <= k < text@.len() ==> is_space(#[trigger] text@[k]) {
        let none = Seq::<char>::empty();
        law_trimming_takes_the_space_off(text@, none, none);
        assert(text@ + none + none =~= text@);
    }
}

/// A root that is listed comes to a project with its canonical form and nothing else, exactly where
/// it is a directory that is there and has such a form.
pub proof fn law_listed_directory_is_loaded(facts: RootFacts)
    ensures
        loaded_project(facts) is Some <==> facts.exists && facts.is_dir && facts.canonical is Ok,
        loaded_project(facts) matches Some(project) ==> project.root == facts.canonical->Ok_0@
            && project.ignore_crates.len() == 0 && project.rust_analyzer is None,
{
}

/// The roots that are to be loaded are those of the entries, all of them, in their order; a text that
/// does not parse gives none.
pub proof fn law_all_listed_roots_are_to_be_loaded(
    parsed: Result<SerConfig, String>,
    roots: Seq<String>,
)
    requires
        are_listed_roots(parsed, roots),
    ensures
        parsed is Err ==> roots.len() == 0,
        parsed matches Ok(config) ==> roots.len() == config.projects@.len() && forall|i: int|
            0 <= i < roots.len() ==> (#[trigger] roots[i])@ == config.projects@[i].1.root@,
{
    law_texts_are_those_of_the_strings(roots);
    if let Ok(config) = parsed {
        assert forall|i: int| 0 <= i < roots.len() implies (#[trigger] roots[i])@
            == config.projects@[i].1.root@ by {
            assert(texts(roots)[i] == roots[i]@);
        }
    }
}

/// The server is reached at the host and the port of its transport, and over the standard streams
/// at none.
pub proof fn law_address_is_that_of_the_transport(host: String, port: u16)
    ensures
        address_of(TransportType::Sse { host, port }) == (host@, port),
        address_of(TransportType::StreamableHttp { host, port }) == (host@, port),
        address_of(TransportType::Stdio) == ("stdio"@, 0u16),
{
}

/// A client is told the host and the port of the transport, each in its place in the text that goes
/// with the transport; over the standard streams there is neither.
pub proof fn law_client_is_told_the_address(host: String, port: u16)
    ensures
        configuration_of(TransportType::Sse { host, port }) == replaced(
            replaced(CONFIG_TEMPLATE_SSE@, "{{HOST}}"@, host@),
            "{{PORT}}"@,
            digits_of(port as nat),
        ),
        configuration_of(TransportType::StreamableHttp { host, port }) == replaced(
            replaced(CONFIG_TEMPLATE_STREAMABLE_HTTP@, "{{HOST}}"@, host@),
            "{{PORT}}"@,
            digits_of(port as nat),
        ),
        !occurs(CONFIG_TEMPLATE_STDIO@, "{{HOST}}"@) && !occurs(CONFIG_TEMPLATE_STDIO@, "{{PORT}}"@)
            ==> configuration_of(TransportType::Stdio) == CONFIG_TEMPLATE_STDIO@,
{
}

}
