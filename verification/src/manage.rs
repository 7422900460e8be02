//! The tool that adds, removes and lists projects.
use crate::commands::name_or;
use crate::context::{
    are_effects_of_addition, are_effects_of_removal, is_named_root, saved_projects, Context,
    ContextEffect,
};
use crate::notification::{ContextNotification, ProjectDescription};
use crate::paths::{expand_path, expands_to, file_name_of, normal_path, opt_str, path_file_name};
use crate::project::Project;
use crate::reply::{is_text, is_texts, text_response, texts_response, Content, ToolResult};
use crate::server::DevToolsServer;
use crate::store::ProjectContextView;
use crate::text::{equal, law_texts_are_those_of_the_strings, texts};
use vstd::prelude::*;

verus! {

/// What is done about a path that is to be added.
#[derive(Debug)]
pub enum AddStep {
    /// The project at this root is to be loaded.
    Load(String),
    /// The project is loaded already, as the message says.
    Loaded(String),
    /// The path is refused.
    Refuse(ToolResult),
}

/// What is done about a path that is to be added, by its canonical form.
pub open spec fn looks_at(
    projects: Map<Seq<char>, ProjectContextView>,
    path: Seq<char>,
    canonical: Result<String, String>,
    step: AddStep,
) -> bool {
    match canonical {
        Err(e) => step matches AddStep::Refuse(result) && is_text(
            result,
            true,
            "Invalid project path '"@ + path + "': "@ + e@,
        ),
        Ok(root) => if projects.contains_key(normal_path(root@)) {
            step matches AddStep::Loaded(message) && message@ == "Project "@ + root@
                + " is already loaded."@
        } else {
            step == AddStep::Load(root)
        },
    }
}

/// Looks at a path that is to be added, by its canonical form or the error where it has none.
pub fn check_added_path(context: &Context, path: &str, canonical: Result<String, String>) -> (res:
    AddStep)
    requires
        context.wf(),
    ensures
        looks_at(context@, path@, canonical, res),
{
    match canonical {
        Err(e) => AddStep::Refuse(
            text_response(
                "Invalid project path '".to_owned().concat(path).concat("': ").concat(e.as_str()),
                true,
            ),
        ),
        Ok(root) => match context.get_project(root.as_str()) {
            Some(_) => AddStep::Loaded(
                "Project ".to_owned().concat(root.as_str()).concat(" is already loaded."),
            ),
            None => AddStep::Load(root),
        },
    }
}

/// What a change of the workspace says and what is to be done then, or the answer where it fails.
pub type Changed = Result<(String, Vec<ContextEffect>), ToolResult>;

/// The project that is remembered after the removal of one: it is forgotten with its project.
pub open spec fn remembered_without(last: Option<String>, name: Seq<char>) -> Option<String> {
    match last {
        Some(last) => if last@ == name {
            None
        } else {
            Some(last)
        },
        None => None,
    }
}

/// The projects that are loaded, and the one that is remembered.
pub type Workspace = (Map<Seq<char>, ProjectContextView>, Option<String>);

/// What comes of the removal of a project by its name.
pub open spec fn manages_removal(
    before: Workspace,
    after: Workspace,
    project_name: Seq<char>,
    res: Changed,
) -> bool {
    match res {
        Err(result) => {
            &&& forall|root: Seq<char>| !is_named_root(before.0, project_name, root)
            &&& is_text(
                result,
                true,
                "Project '"@ + project_name + "' not found. Cannot remove non-existent project."@,
            )
            &&& after.0 == before.0
            &&& after.1 == before.1
        },
        Ok((message, effects)) => {
            &&& exists|root: Seq<char>|
                is_named_root(before.0, project_name, root) && after.0 == before.0.remove(
                    normal_path(root),
                ) && are_effects_of_removal(effects@, root, after.0)
            &&& message@ == "Successfully removed project: "@ + project_name
            &&& after.1 == remembered_without(before.1, project_name)
        },
    }
}

/// What comes of the addition of the project at a root, by whether it could be made and its
/// language server started.
pub open spec fn manages_addition(
    before: Workspace,
    after: Workspace,
    root: Seq<char>,
    project: Result<Project, String>,
    started: Result<(), String>,
    res: Changed,
) -> bool {
    match (project, started) {
        (Err(e), _) => {
            &&& res matches Err(result) && is_text(
                result,
                true,
                "Failed to initialize project: "@ + e@,
            )
            &&& after.0 == before.0
            &&& after.1 == before.1
        },
        (Ok(_), Err(e)) => {
            &&& res matches Err(result) && is_text(result, true, "Failed to load project: "@ + e@)
            &&& after.0 == before.0
            &&& after.1 == before.1
        },
        (Ok(project), Ok(_)) => {
            let name = name_or(root, "unknown"@);
            &&& after.0 == before.0.insert(
                normal_path(project.root@),
                ProjectContextView { project: project@, is_indexing_lsp: true },
            )
            &&& res matches Ok((message, effects)) && message@ == "Successfully added project: "@
                + name + " (set as current project)"@ && are_effects_of_addition(
                effects@,
                project.root@,
                after.0,
            )
            &&& after.1 matches Some(last) && last@ == name
        },
    }
}

impl DevToolsServer {
    /// Removes a project by its name.
    pub fn manage_removal(&mut self, context: &mut Context, project_name: &str) -> (res: Changed)
        requires
            old(self).wf(),
            old(context).wf(),
        ensures
            final(self).wf(),
            final(context).wf(),
            final(self).keeps_tables(old(self)),
            final(context).reached_by() == old(context).reached_by(),
            final(context).saved_at() == old(context).saved_at(),
            manages_removal(
                (old(context)@, old(self).remembered()),
                (final(context)@, final(self).remembered()),
                project_name@,
                res,
            ),
    {
        let ghost before = context@;
        let root = match context.find_project_by_name(project_name) {
            Some(root) => root,
            None => {
                return Err(
                    text_response(
                        "Project '".to_owned().concat(project_name).concat(
                            "' not found. Cannot remove non-existent project.",
                        ),
                        true,
                    ),
                );
            },
        };
        let (_, effects) = context.remove_project(root.as_str());
        let forget = match &self.last_project {
            Some(last) => equal(last.as_str(), project_name),
            None => false,
        };
        if forget {
            self.last_project = None;
        }
        let message = "Successfully removed project: ".to_owned().concat(project_name);
        let ghost first: Workspace = (before, old(self).remembered());
        let ghost last: Workspace = (context@, self.remembered());
        assert(is_named_root(first.0, project_name@, root@) && last.0 == first.0.remove(
            normal_path(root@),
        ) && are_effects_of_removal(effects@, root@, last.0));
        Ok((message, effects))
    }

    /// Adds the project at a root, which is remembered, by whether the project could be made and
    /// its language server started.
    pub fn manage_addition(
        &mut self,
        context: &mut Context,
        root: &str,
        project: Result<Project, String>,
        started: Result<(), String>,
    ) -> (res: Changed)
        requires
            old(self).wf(),
            old(context).wf(),
        ensures
            final(self).wf(),
            final(context).wf(),
            final(self).keeps_tables(old(self)),
            final(context).reached_by() == old(context).reached_by(),
            final(context).saved_at() == old(context).saved_at(),
            manages_addition(
                (old(context)@, old(self).remembered()),
                (final(context)@, final(self).remembered()),
                root@,
                project,
                started,
                res,
            ),
    {
        let project = match project {
            Ok(project) => project,
            Err(e) => {
                return Err(
                    text_response(
                        "Failed to initialize project: ".to_owned().concat(e.as_str()),
                        true,
                    ),
                );
            },
        };
        match context.add_project(project, started) {
            Err(e) => Err(
                text_response("Failed to load project: ".to_owned().concat(e.as_str()), true),
            ),
            Ok(effects) => {
                let name = match path_file_name(root) {
                    Some(name) => name,
                    None => "unknown".to_owned(),
                };
                let message = "Successfully added project: ".to_owned().concat(
                    name.as_str(),
                ).concat(" (set as current project)");
                self.last_project = Some(name);
                Ok((message, effects))
            },
        }
    }
}

/// The line that lists a project.
pub open spec fn project_line(project: ProjectDescription) -> Seq<char> {
    "- "@ + project.name@ + " ("@ + project.root@ + ")"@ + if project.is_indexing_lsp {
        " (indexing...)"@
    } else {
        " (ready)"@
    }
}

/// What was done, and then the projects that are loaded.
pub open spec fn overview(done: Seq<Seq<char>>, projects: Seq<ProjectDescription>) -> Seq<
    Seq<char>,
> {
    if projects.len() == 0 {
        done.push(
            "No projects currently loaded. Use 'manage_projects' with add_project_path parameter to load one."@,
        )
    } else {
        (if done.len() == 0 {
            done
        } else {
            done.push(""@)
        }).push("Currently loaded projects:"@) + projects.map_values(
            |project: ProjectDescription| project_line(project),
        )
    }
}

/// Answers with what was done, and lists the projects that are loaded.
pub fn manage_projects(done: Vec<String>, projects: &Vec<ProjectDescription>) -> (res: ToolResult)
    ensures
        is_texts(res, overview(texts(done@), projects@)),
{
    let ghost told = texts(done@);
    assert(told.len() == done@.len());
    let mut lines = done;
    if projects.len() == 0 {
        lines.push(
            "No projects currently loaded. Use 'manage_projects' with add_project_path parameter to load one.".to_owned(),
        );
        assert(texts(lines@) =~= overview(told, projects@));
        return texts_response(lines);
    }
    if lines.len() > 0 {
        lines.push("".to_owned());
    }
    lines.push("Currently loaded projects:".to_owned());
    let ghost head = (if told.len() == 0 {
        told
    } else {
        told.push(""@)
    }).push("Currently loaded projects:"@);
    assert(texts(lines@) =~= head);
    let mut i: usize = 0;
    while i < projects.len()
        invariant
            i <= projects@.len(),
            texts(lines@) == head + projects@.take(i as int).map_values(
                |project: ProjectDescription| project_line(project),
            ),
        decreases projects@.len() - i,
    {
        let project = &projects[i];
        let status = if project.is_indexing_lsp {
            " (indexing...)"
        } else {
            " (ready)"
        };
        let line = "- ".to_owned().concat(project.name.as_str()).concat(" (").concat(
            project.root.as_str(),
        ).concat(")").concat(status);
        assert(line@ == project_line(*project));
        let ghost before = texts(lines@);
        lines.push(line);
        assert(texts(lines@) =~= before.push(line@));
        assert(projects@.take(i + 1) =~= projects@.take(i as int).push(*project));
        i += 1;
        assert(texts(lines@) =~= head + projects@.take(i as int).map_values(
            |project: ProjectDescription| project_line(project),
        ));
    }
    assert(projects@.take(i as int) =~= projects@);
    texts_response(lines)
}

/// The next step of the tool.
#[derive(Debug)]
pub enum ManageStep {
    /// Find the canonical form of this path.
    Canonicalize(String),
    /// Make the project at this root, and start its language server.
    Load(String),
    /// Describe the projects that are loaded.
    List,
    /// The tool answers.
    Answer(ToolResult),
}

/// A run of the tool: the path to add, the root that it has, and what was done so far.
#[derive(Debug)]
pub struct ManageRun {
    pub add: Option<String>,
    pub root: Option<String>,
    pub done: Vec<String>,
}

/// The step after a removal, or where none was asked for.
pub open spec fn next_after_removal(
    add: Option<String>,
    home: Option<Seq<char>>,
    step: ManageStep,
) -> bool {
    match add {
        Some(path) => step matches ManageStep::Canonicalize(expanded) && expands_to(
            path@,
            home,
            expanded@,
        ),
        None => step is List,
    }
}

/// How a run starts: what it removes, what it does next, and what is to be done then.
pub open spec fn starts_run(
    before: Workspace,
    after: Workspace,
    add: Option<String>,
    remove: Option<String>,
    home: Option<Seq<char>>,
    run: ManageRun,
    step: ManageStep,
    effects: Seq<ContextEffect>,
) -> bool {
    &&& run.add == add
    &&& run.root is None
    &&& match remove {
        None => {
            &&& after.0 == before.0
            &&& after.1 == before.1
            &&& texts(run.done@) == Seq::<Seq<char>>::empty()
            &&& next_after_removal(add, home, step)
            &&& effects.len() == 0
        },
        Some(name) => if exists|root: Seq<char>| is_named_root(before.0, name@, root) {
            &&& exists|root: Seq<char>|
                is_named_root(before.0, name@, root) && after.0 == before.0.remove(
                    normal_path(root),
                ) && are_effects_of_removal(effects, root, after.0)
            &&& after.1 == remembered_without(before.1, name@)
            &&& texts(run.done@) == seq!["Successfully removed project: "@ + name@]
            &&& next_after_removal(add, home, step)
        } else {
            &&& after.0 == before.0
            &&& after.1 == before.1
            &&& step matches ManageStep::Answer(result) && is_text(
                result,
                true,
                "Project '"@ + name@ + "' not found. Cannot remove non-existent project."@,
            )
            &&& effects.len() == 0
        },
    }
}

/// How a run goes on with the canonical form of the path to add, or the error where it has none.
pub open spec fn checks_path(
    before: ManageRun,
    after: ManageRun,
    projects: Map<Seq<char>, ProjectContextView>,
    canonical: Result<String, String>,
    step: ManageStep,
) -> bool {
    &&& after.add == before.add
    &&& match canonical {
        Err(e) => {
            &&& step matches ManageStep::Answer(result) && is_text(
                result,
                true,
                "Invalid project path '"@ + before.add->0@ + "': "@ + e@,
            )
            &&& after == before
        },
        Ok(root) => if projects.contains_key(normal_path(root@)) {
            &&& step is List
            &&& after.root == before.root
            &&& texts(after.done@) == texts(before.done@).push(
                "Project "@ + root@ + " is already loaded."@,
            )
        } else {
            &&& step == ManageStep::Load(root)
            &&& after.root == Some(root)
            &&& after.done@ == before.done@
        },
    }
}

/// How a run goes on with the project to add.
pub open spec fn ends_loading(
    run_before: ManageRun,
    run_after: ManageRun,
    before: Workspace,
    after: Workspace,
    project: Result<Project, String>,
    started: Result<(), String>,
    step: ManageStep,
    effects: Seq<ContextEffect>,
) -> bool {
    &&& run_after.add == run_before.add
    &&& run_after.root == run_before.root
    &&& match (project, started) {
        (Ok(project), Ok(_)) => {
            let name = name_or(run_before.root->0@, "unknown"@);
            &&& step is List
            &&& are_effects_of_addition(effects, project.root@, after.0)
            &&& after.0 == before.0.insert(
                normal_path(project.root@),
                ProjectContextView { project: project@, is_indexing_lsp: true },
            )
            &&& after.1 matches Some(last) && last@ == name
            &&& texts(run_after.done@) == texts(run_before.done@).push(
                "Successfully added project: "@ + name + " (set as current project)"@,
            )
        },
        _ => {
            &&& step matches ManageStep::Answer(result) && is_text(
                result,
                true,
                match (project, started) {
                    (Err(e), _) => "Failed to initialize project: "@ + e@,
                    (_, Err(e)) => "Failed to load project: "@ + e@,
                    _ => Seq::empty(),
                },
            )
            &&& effects.len() == 0
            &&& after.0 == before.0
            &&& after.1 == before.1
            &&& run_after.done@ == run_before.done@
        },
    }
}

impl ManageRun {
    /// Starts a run. A removal comes first, and ends the run where it fails; an addition comes
    /// next, whose path may start at the home directory, and then the listing.
    pub fn start(
        server: &mut DevToolsServer,
        context: &mut Context,
        add: Option<String>,
        remove: Option<String>,
        home: Option<&str>,
    ) -> (res: (ManageRun, ManageStep, Vec<ContextEffect>))
        requires
            old(server).wf(),
            old(context).wf(),
        ensures
            final(server).wf(),
            final(context).wf(),
            final(server).keeps_tables(old(server)),
            final(context).reached_by() == old(context).reached_by(),
            final(context).saved_at() == old(context).saved_at(),
            starts_run(
                (old(context)@, old(server).remembered()),
                (final(context)@, final(server).remembered()),
                add,
                remove,
                opt_str(home),
                res.0,
                res.1,
                res.2@,
            ),
    {
        let mut done: Vec<String> = Vec::new();
        let mut effects: Vec<ContextEffect> = Vec::new();
        assert(texts(done@) =~= Seq::<Seq<char>>::empty());
        if let Some(name) = &remove {
            match server.manage_removal(context, name.as_str()) {
                Err(result) => {
                    let run = ManageRun { add, root: None, done };
                    return (run, ManageStep::Answer(result), effects);
                },
                Ok((message, todo)) => {
                    done.push(message);
                    effects = todo;
                    assert(texts(done@) =~= seq![message@]);
                },
            }
        }
        let step = match &add {
            Some(path) => ManageStep::Canonicalize(expand_path(path.as_str(), home)),
            None => ManageStep::List,
        };
        (ManageRun { add, root: None, done }, step, effects)
    }

    /// Goes on with the canonical form of the path to add, or the error where it has none. A
    /// project that is loaded already is not loaded again.
    pub fn on_canonical(&mut self, context: &Context, canonical: Result<String, String>) -> (res:
        ManageStep)
        requires
            context.wf(),
            old(self).add is Some,
        ensures
            checks_path(*old(self), *final(self), context@, canonical, res),
    {
        let path = match &self.add {
            Some(path) => path.clone(),
            None => String::new(),
        };
        let ghost before = texts(self.done@);
        match check_added_path(context, path.as_str(), canonical) {
            AddStep::Refuse(result) => ManageStep::Answer(result),
            AddStep::Loaded(message) => {
                self.done.push(message);
                assert(texts(self.done@) =~= before.push(message@));
                ManageStep::List
            },
            AddStep::Load(root) => {
                self.root = Some(root.clone());
                ManageStep::Load(root)
            },
        }
    }

    /// Goes on with the project, by whether it could be made and its language server started.
    pub fn on_loaded(
        &mut self,
        server: &mut DevToolsServer,
        context: &mut Context,
        project: Result<Project, String>,
        started: Result<(), String>,
    ) -> (res: (ManageStep, Vec<ContextEffect>))
        requires
            old(server).wf(),
            old(context).wf(),
            old(self).root is Some,
        ensures
            final(server).wf(),
            final(context).wf(),
            final(server).keeps_tables(old(server)),
            final(context).reached_by() == old(context).reached_by(),
            final(context).saved_at() == old(context).saved_at(),
            ends_loading(
                *old(self),
                *final(self),
                (old(context)@, old(server).remembered()),
                (final(context)@, final(server).remembered()),
                project,
                started,
                res.0,
                res.1@,
            ),
    {
        let root = match &self.root {
            Some(root) => root.clone(),
            None => String::new(),
        };
        let ghost before = texts(self.done@);
        match server.manage_addition(context, root.as_str(), project, started) {
            Err(result) => (ManageStep::Answer(result), Vec::new()),
            Ok((message, effects)) => {
                self.done.push(message);
                assert(texts(self.done@) =~= before.push(message@));
                (ManageStep::List, effects)
            },
        }
    }

    /// Ends the run with the projects that are loaded.
    pub fn on_listed(self, projects: &Vec<ProjectDescription>) -> (res: ToolResult)
        ensures
            is_texts(res, overview(texts(self.done@), projects@)),
    {
        manage_projects(self.done, projects)
    }
}

/// A path that is to be added is loaded exactly where it has a canonical form at which no project is
/// loaded.
pub proof fn law_path_is_loaded_where_no_project_is(
    projects: Map<Seq<char>, ProjectContextView>,
    path: Seq<char>,
    canonical: Result<String, String>,
    step: AddStep,
)
    requires
        looks_at(projects, path, canonical, step),
    ensures
        canonical is Err <==> step is Refuse,
        step is Load <==> canonical is Ok && !projects.contains_key(
            normal_path(canonical->Ok_0@),
        ),
        step matches AddStep::Load(root) ==> root == canonical->Ok_0,
        step matches AddStep::Loaded(message) ==> message@ == "Project "@ + canonical->Ok_0@
            + " is already loaded."@,
        step matches AddStep::Refuse(result) ==> result.is_error && result.content@.len() == 1 && (
        result.content@[0] matches Content::Text(text) && text@ == "Invalid project path '"@ + path
            + "': "@ + canonical->Err_0@),
{
}

/// A removal by a name takes out one project whose directory has that name and no other, and forgets
/// the name where it was remembered; where no project has it, nothing changes and an error is told.
pub proof fn law_managed_removal_takes_one_project(
    before: Workspace,
    after: Workspace,
    project_name: Seq<char>,
    res: Changed,
    root: Seq<char>,
)
    requires
        manages_removal(before, after, project_name, res),
    ensures
        res is Err ==> after == before && !(before.0.contains_key(normal_path(root))
            && before.0[normal_path(root)].project.root == root && file_name_of(root) == Some(
            project_name,
        )),
        res matches Err(result) ==> result.is_error && result.content@.len() == 1 && (
        result.content@[0] matches Content::Text(text) && text@ == "Project '"@ + project_name
            + "' not found. Cannot remove non-existent project."@),
        res matches Ok((message, effects)) ==> {
            &&& message@ == "Successfully removed project: "@ + project_name
            &&& effects@.len() == 2
            &&& effects@[0] matches ContextEffect::Notify(ContextNotification::ProjectRemoved(own))
                && file_name_of(own@) == Some(project_name) && before.0.contains_key(
                normal_path(own@),
            ) && after.0 == before.0.remove(normal_path(own@)) && !after.0.contains_key(
                normal_path(own@),
            )
            &&& effects@[1] is WriteConfig
            &&& effects@[1]->WriteConfig_0@.dom() == after.0.dom()
            &&& match before.1 {
                Some(last) => after.1 == if last@ == project_name {
                    None::<String>
                } else {
                    Some(last)
                },
                None => after.1 is None,
            }
        },
{
    match res {
        Err(_) => {
            assert(!is_named_root(before.0, project_name, root));
        },
        Ok(_) => {
            assert(saved_projects(after.0).dom() =~= after.0.dom());
        },
    }
}

/// An addition loads the project under its root, as one that is being indexed, remembers the name of
/// the root, and says so; where it fails, nothing changes and the reason is told.
pub proof fn law_managed_addition_is_remembered(
    before: Workspace,
    after: Workspace,
    root: Seq<char>,
    project: Result<Project, String>,
    started: Result<(), String>,
    res: Changed,
)
    requires
        manages_addition(before, after, root, project, started, res),
    ensures
        res is Ok <==> project is Ok && started is Ok,
        res matches Err(result) ==> after == before && result.is_error && result.content@.len()
            == 1 && (result.content@[0] matches Content::Text(text) && (project matches Err(e)
            ==> text@ == "Failed to initialize project: "@ + e@) && (project is Ok ==> text@
            == "Failed to load project: "@ + started->Err_0@)),
        res matches Ok((message, effects)) ==> {
            let name = match file_name_of(root) {
                Some(name) => name,
                None => "unknown"@,
            };
            let key = normal_path(project->Ok_0.root@);
            &&& message@ == "Successfully added project: "@ + name + " (set as current project)"@
            &&& after.1 matches Some(last) && last@ == name
            &&& after.0.contains_key(key)
            &&& after.0[key].project == project->Ok_0@
            &&& after.0[key].is_indexing_lsp
            &&& after.0.remove(key) == before.0.remove(key)
            &&& effects@.len() == 3
            &&& effects@[0] is DescribeProjects
            &&& effects@[1] is WriteConfig
            &&& effects@[1]->WriteConfig_0@.dom() == after.0.dom()
            &&& effects@[2] matches ContextEffect::Notify(ContextNotification::ProjectAdded(own))
                && own@ == project->Ok_0.root@
        },
{
    if res is Ok {
        let key = normal_path(project->Ok_0.root@);
        assert(after.0.remove(key) =~= before.0.remove(key));
        assert(saved_projects(after.0).dom() =~= after.0.dom());
    }
}

/// What was done is told first, line by line, and every project is listed after it, in the order in
/// which it is described; where none is loaded, that is told last.
pub proof fn law_overview_lists_every_project(
    done: Vec<String>,
    projects: Vec<ProjectDescription>,
    result: ToolResult,
    i: int,
)
    requires
        is_texts(result, overview(texts(done@), projects@)),
    ensures
        ({
            let n = done@.len();
            let head = if n == 0 {
                1int
            } else {
                (n + 2) as int
            };
            &&& !result.is_error
            &&& 0 <= i < n ==> (result.content@[i] matches Content::Text(text) && text@
                == done@[i]@)
            &&& projects@.len() == 0 ==> result.content@.len() == n + 1 && (
            result.content@[n as int] matches Content::Text(text) && text@
                == "No projects currently loaded. Use 'manage_projects' with add_project_path parameter to load one."@)
            &&& projects@.len() > 0 ==> result.content@.len() == head + projects@.len() && (
            result.content@[head - 1] matches Content::Text(text) && text@
                == "Currently loaded projects:"@)
            &&& projects@.len() > 0 && n > 0 ==> (
            result.content@[n as int] matches Content::Text(text) && text@.len() == 0)
            &&& 0 <= i < projects@.len() ==> (
            result.content@[head + i] matches Content::Text(text) && text@ == "- "@
                + projects@[i].name@ + " ("@ + projects@[i].root@ + ")"@
                + if projects@[i].is_indexing_lsp {
                " (indexing...)"@
            } else {
                " (ready)"@
            })
        }),
{
    law_texts_are_those_of_the_strings(done@);
    reveal_strlit("");
    assert(""@.len() == 0);
    let n = done@.len();
    let lines = overview(texts(done@), projects@);
    let head = if n == 0 {
        1int
    } else {
        (n + 2) as int
    };
    if 0 <= i < n {
        assert(lines[i] == texts(done@)[i]);
        assert(result.content@[i] matches Content::Text(own) && own@ == lines[i]);
    }
    if projects@.len() == 0 {
        assert(result.content@[n as int] matches Content::Text(own) && own@ == lines[n as int]);
    } else {
        assert(result.content@[head - 1] matches Content::Text(own) && own@ == lines[head - 1]);
        if n > 0 {
            assert(result.content@[n as int] matches Content::Text(own) && own@ == lines[n as int]);
        }
        if 0 <= i < projects@.len() {
            assert(lines[head + i] == project_line(projects@[i]));
            assert(result.content@[head + i] matches Content::Text(own) && own@ == lines[head + i]);
        }
    }
}

/// A run without a removal changes nothing at its start. It goes on with the path to add, or with the
/// listing where there is none.
pub proof fn law_run_starts_with_what_is_asked(
    before: Workspace,
    after: Workspace,
    add: Option<String>,
    home: Option<Seq<char>>,
    run: ManageRun,
    step: ManageStep,
    effects: Seq<ContextEffect>,
)
    requires
        starts_run(before, after, add, None, home, run, step, effects),
    ensures
        after == before,
        run.add == add,
        run.root is None,
        run.done@.len() == 0,
        effects.len() == 0,
        add is None ==> step is List,
        add matches Some(path) ==> (step matches ManageStep::Canonicalize(expanded) && ((
        path@.len() > 0 && path@[0] == '~') || expanded@ == path@)),
{
    law_texts_are_those_of_the_strings(run.done@);
}

/// A run with a removal removes one project with the name, tells of it, and goes on; where there is
/// none, it ends with an error and does not go on to add.
pub proof fn law_run_removes_before_it_adds(
    before: Workspace,
    after: Workspace,
    add: Option<String>,
    name: String,
    home: Option<Seq<char>>,
    run: ManageRun,
    step: ManageStep,
    effects: Seq<ContextEffect>,
    root: Seq<char>,
)
    requires
        starts_run(before, after, add, Some(name), home, run, step, effects),
    ensures
        run.add == add,
        run.root is None,
        before.0.contains_key(normal_path(root)) && before.0[normal_path(root)].project.root == root
            && file_name_of(root) == Some(name@) ==> {
            &&& step !is Answer
            &&& add is None <==> step is List
            &&& add is Some <==> step is Canonicalize
            &&& run.done@.len() == 1
            &&& run.done@[0]@ == "Successfully removed project: "@ + name@
            &&& effects.len() == 2
            &&& effects[0] matches ContextEffect::Notify(ContextNotification::ProjectRemoved(own))
                && file_name_of(own@) == Some(name@) && before.0.contains_key(normal_path(own@))
                && after.0 == before.0.remove(normal_path(own@))
            &&& effects[1] is WriteConfig
            &&& before.1 is Some && before.1->0@ == name@ ==> after.1 is None
            &&& before.1 is Some && before.1->0@ != name@ ==> after.1 == before.1
            &&& before.1 is None ==> after.1 is None
        },
        (forall|own: Seq<char>|
            !(before.0.contains_key(#[trigger] normal_path(own)) && before.0[normal_path(
                own,
            )].project.root == own && file_name_of(own) == Some(name@))) ==> {
            &&& after == before
            &&& effects.len() == 0
            &&& step matches ManageStep::Answer(result) && result.is_error && result.content@.len()
                == 1 && (result.content@[0] matches Content::Text(text) && text@ == "Project '"@
                + name@ + "' not found. Cannot remove non-existent project."@)
        },
{
    law_texts_are_those_of_the_strings(run.done@);
    if is_named_root(before.0, name@, root) {
        assert(texts(run.done@)[0] == run.done@[0]@);
    }
    if forall|own: Seq<char>|
        !(before.0.contains_key(#[trigger] normal_path(own)) && before.0[normal_path(
            own,
        )].project.root == own && file_name_of(own) == Some(name@)) {
        assert forall|own: Seq<char>| !is_named_root(before.0, name@, own) by {
            assert(!(before.0.contains_key(normal_path(own)) && before.0[normal_path(
                own,
            )].project.root == own && file_name_of(own) == Some(name@)));
        }
    }
}

/// What a run has done so far is kept and told of, whatever the path or the project to add comes to.
/// A path without a canonical form and a project that fails to load end the run with an error.
pub proof fn law_run_keeps_what_was_done(
    first: ManageRun,
    checked: ManageRun,
    loaded: ManageRun,
    before: Workspace,
    after: Workspace,
    canonical: Result<String, String>,
    next: ManageStep,
    project: Result<Project, String>,
    started: Result<(), String>,
    step: ManageStep,
    effects: Seq<ContextEffect>,
    i: int,
)
    requires
        checks_path(first, checked, before.0, canonical, next),
        ends_loading(checked, loaded, before, after, project, started, step, effects),
        0 <= i < first.done@.len(),
    ensures
        checked.done@.len() >= first.done@.len(),
        checked.done@[i]@ == first.done@[i]@,
        loaded.done@.len() >= checked.done@.len(),
        loaded.done@[i]@ == first.done@[i]@,
        canonical is Err <==> next is Answer,
        next is Load <==> canonical is Ok && !before.0.contains_key(
            normal_path(canonical->Ok_0@),
        ),
        next is Load ==> next->Load_0 == canonical->Ok_0 && checked.root == Some(canonical->Ok_0)
            && checked.done@.len() == first.done@.len(),
        next is List ==> checked.done@.len() == first.done@.len() + 1 && checked.done@.last()@
            == "Project "@ + canonical->Ok_0@ + " is already loaded."@,
        step is List <==> project is Ok && started is Ok,
        step is Answer <==> project is Err || started is Err,
        step is Answer ==> after == before && effects.len() == 0 && loaded.done@ == checked.done@,
        step is List ==> loaded.done@.len() == checked.done@.len() + 1,
{
    law_texts_are_those_of_the_strings(first.done@);
    law_texts_are_those_of_the_strings(checked.done@);
    law_texts_are_those_of_the_strings(loaded.done@);
    assert(texts(first.done@)[i] == first.done@[i]@);
    assert(texts(checked.done@)[i] == checked.done@[i]@);
    assert(texts(loaded.done@)[i] == loaded.done@[i]@);
    if next is List {
        assert(texts(checked.done@).last() == checked.done@.last()@);
    }
}

}
