//! The commands on the projects of a configuration file.
use crate::config::{listed_under, ListedProject, SerConfig, SerProject, SerProjectView};
use crate::display::{beautify_path, shown_path};
use crate::paths::{file_name_of, normal_path, opt_str, opt_text, path_file_name};
use crate::project::{Project, ProjectView};
use crate::text::{decimal, digits_of, equal, law_texts_are_those_of_the_strings, texts};
use vstd::prelude::*;

verus! {

/// A command on the projects of a configuration file.
#[derive(Clone, Debug)]
pub enum ProjectCommand {
    /// Adds a project under the canonical form of its path.
    Add { path: String, project: Project },
    /// Removes a project by its name, or by its path, whose canonical form is given if there is
    /// one.
    Remove { path_or_name: String, canonical: Option<String> },
    /// Lists the projects.
    List,
    /// Removes every project.
    Clear,
}

/// What a command shows, and whether the configuration is to be saved.
#[derive(Clone, Debug)]
pub struct CommandOutcome {
    /// The lines to show before the configuration is saved.
    pub before: Vec<String>,
    pub save: bool,
    /// The lines to show once it is saved.
    pub after: Vec<String>,
}

/// What a command shows, and whether the configuration is to be saved.
#[verifier::ext_equal]
pub struct OutcomeView {
    pub before: Seq<Seq<char>>,
    pub save: bool,
    pub after: Seq<Seq<char>>,
}

impl View for CommandOutcome {
    type V = OutcomeView;

    open spec fn view(&self) -> OutcomeView {
        OutcomeView { before: texts(self.before@), save: self.save, after: texts(self.after@) }
    }
}

/// A project as it is saved.
pub open spec fn saved_project(project: ProjectView) -> SerProjectView {
    SerProjectView { root: project.root, ignore_crates: project.ignore_crates }
}

/// A project as it is saved.
pub fn save_project(project: &Project) -> (res: SerProject)
    ensures
        res@ == saved_project(project@),
{
    let copy = project.copy();
    SerProject { root: copy.root, ignore_crates: copy.ignore_crates }
}

/// The name of a project by its path, or another text where the path ends in no name.
pub open spec fn name_or(path: Seq<char>, other: Seq<char>) -> Seq<char> {
    match file_name_of(path) {
        Some(name) => name,
        None => other,
    }
}

/// `i` is the first entry whose path ends in the name.
pub open spec fn is_first_named(
    entries: Seq<(String, SerProject)>,
    name: Seq<char>,
    i: int,
) -> bool {
    &&& 0 <= i < entries.len()
    &&& name_or(entries[i].0@, ""@) == name
    &&& forall|j: int| 0 <= j < i ==> name_or((#[trigger] entries[j]).0@, ""@) != name
}

/// The path under which the project that is meant is listed: the first with that name, else the
/// path itself where a project is listed under it.
pub open spec fn meant_path(
    entries: Seq<(String, SerProject)>,
    config: Map<Seq<char>, ListedProject>,
    path_or_name: Seq<char>,
    canonical: Option<Seq<char>>,
) -> Option<Seq<char>> {
    if exists|i: int| is_first_named(entries, path_or_name, i) {
        Some(entries[choose|i: int| is_first_named(entries, path_or_name, i)].0@)
    } else {
        match canonical {
            Some(path) => if config.contains_key(normal_path(path)) {
                Some(path)
            } else {
                None
            },
            None => None,
        }
    }
}

/// The line that lists a project.
pub open spec fn listing_line(
    entry: (String, SerProject),
    current: Option<Seq<char>>,
) -> Seq<char> {
    "  • "@ + name_or(entry.0@, "<unknown>"@) + " "@ + shown_path(entry.1.root@, current)
}

/// The lines that list the projects.
pub open spec fn listing(
    entries: Seq<(String, SerProject)>,
    current: Option<Seq<char>>,
) -> Seq<Seq<char>> {
    seq!["📋 Projects in workspace:"@] + entries.map_values(
        |entry: (String, SerProject)| listing_line(entry, current),
    )
}

/// What a command does: the configuration after it, and what it shows.
pub open spec fn command_result(
    entries: Seq<(String, SerProject)>,
    config: Map<Seq<char>, ListedProject>,
    command: ProjectCommand,
    current: Option<Seq<char>>,
) -> (Map<Seq<char>, ListedProject>, OutcomeView) {
    match command {
        ProjectCommand::Add { path, project } => (
            config.insert(
                normal_path(path@),
                listed_under(config, path@, saved_project(project@)),
            ),
            OutcomeView {
                before: seq!["✅ Adding project: "@ + shown_path(path@, current)],
                save: true,
                after: seq!["🎉 Project successfully added to workspace!"@],
            },
        ),
        ProjectCommand::Remove { path_or_name, canonical } => match meant_path(
            entries,
            config,
            path_or_name@,
            opt_text(canonical),
        ) {
            Some(path) => (
                config.remove(normal_path(path)),
                OutcomeView {
                    before: seq!["🗑️  Removing project: "@ + shown_path(path, current)],
                    save: true,
                    after: seq!["✅ Project successfully removed from workspace!"@],
                },
            ),
            None => (
                config,
                OutcomeView {
                    before: seq![
                        "⚠️  Project not found: '"@ + path_or_name@ + "'"@,
                        "💡 Use 'rust-devtools-mcp projects list' to see available projects"@,
                    ],
                    save: false,
                    after: seq![],
                },
            ),
        },
        ProjectCommand::List => (
            config,
            OutcomeView {
                before: if entries.len() == 0 {
                    seq![
                        "📭 No projects found in the workspace."@,
                        "💡 Add a project using: rust-devtools-mcp projects add <path>"@,
                    ]
                } else {
                    listing(entries, current)
                },
                save: false,
                after: seq![],
            },
        ),
        ProjectCommand::Clear => if entries.len() == 0 {
            (
                config,
                OutcomeView {
                    before: seq!["📭 No projects found in the workspace. Nothing to clear."@],
                    save: false,
                    after: seq![],
                },
            )
        } else {
            (
                Map::empty(),
                OutcomeView {
                    before: seq![
                        "🧹 Clearing "@ + digits_of(entries.len())
                            + " project(s) from workspace..."@,
                    ],
                    save: true,
                    after: seq!["✅ All projects successfully cleared from workspace!"@],
                },
            )
        },
    }
}

fn one(line: String) -> (res: Vec<String>)
    ensures
        texts(res@) == seq![line@],
{
    let mut lines: Vec<String> = Vec::new();
    lines.push(line);
    assert(texts(lines@) =~= seq![line@]);
    lines
}

fn none() -> (res: Vec<String>)
    ensures
        texts(res@) == Seq::<Seq<char>>::empty(),
{
    let lines: Vec<String> = Vec::new();
    assert(texts(lines@) =~= Seq::<Seq<char>>::empty());
    lines
}

fn find_named(config: &SerConfig, name: &str) -> (res: Option<usize>)
    ensures
        match res {
            Some(i) => is_first_named(config.projects@, name@, i as int),
            None => forall|i: int| !is_first_named(config.projects@, name@, i),
        },
{
    let mut i: usize = 0;
    while i < config.projects.len()
        invariant
            i <= config.projects@.len(),
            forall|j: int|
                0 <= j < i ==> name_or((#[trigger] config.projects@[j]).0@, ""@) != name@,
        decreases config.projects@.len() - i,
    {
        let own = match path_file_name(config.projects[i].0.as_str()) {
            Some(own) => own,
            None => "".to_owned(),
        };
        if equal(own.as_str(), name) {
            return Some(i);
        }
        i += 1;
    }
    None
}

fn list_projects(config: &SerConfig, current_dir: Option<&str>) -> (res: Vec<String>)
    ensures
        texts(res@) == listing(
            config.projects@,
            opt_str(current_dir),
        ),
{
    let ghost current: Option<Seq<char>> = opt_str(current_dir);
    let ghost title = "📋 Projects in workspace:"@;
    let mut lines = one("📋 Projects in workspace:".to_owned());
    assert(lines@.len() == 1) by {
        assert(texts(lines@).len() == 1);
    }
    assert(lines@[0]@ == title) by {
        assert(texts(lines@)[0] == title);
    }
    let mut i: usize = 0;
    while i < config.projects.len()
        invariant
            i <= config.projects@.len(),
            current == opt_str(current_dir),
            lines@.len() == i + 1,
            lines@[0]@ == title,
            forall|k: int|
                0 <= k < i ==> (#[trigger] lines@[k + 1])@ == listing_line(
                    config.projects@[k],
                    current,
                ),
        decreases config.projects@.len() - i,
    {
        let name = match path_file_name(config.projects[i].0.as_str()) {
            Some(name) => name,
            None => "<unknown>".to_owned(),
        };
        let shown = beautify_path(config.projects[i].1.root.as_str(), current_dir);
        let line = "  • ".to_owned().concat(name.as_str()).concat(" ").concat(shown.as_str());
        assert(line@ == listing_line(config.projects@[i as int], current));
        lines.push(line);
        i += 1;
    }
    assert forall|k: int| 0 <= k < lines@.len() implies #[trigger] texts(lines@)[k] == listing(
        config.projects@,
        current,
    )[k] by {
        if k > 0 {
            assert(lines@[(k - 1) + 1]@ == listing_line(config.projects@[k - 1], current));
        }
    }
    assert(texts(lines@) =~= listing(config.projects@, current));
    lines
}

/// Carries out a command on the projects of a configuration. `current_dir` is the current
/// directory, if it is known.
pub fn handle_projects(
    config: &mut SerConfig,
    command: ProjectCommand,
    current_dir: Option<&str>,
) -> (res: CommandOutcome)
    requires
        old(config).wf(),
    ensures
        final(config).wf(),
        (final(config)@, res@) == command_result(
            old(config).projects@,
            old(config)@,
            command,
            opt_str(current_dir),
        ),
{
    let ghost entries = config.projects@;
    match command {
        ProjectCommand::Add { path, project } => {
            let shown = beautify_path(path.as_str(), current_dir);
            config.insert(path, save_project(&project));
            CommandOutcome {
                before: one("✅ Adding project: ".to_owned().concat(shown.as_str())),
                save: true,
                after: one("🎉 Project successfully added to workspace!".to_owned()),
            }
        },
        ProjectCommand::Remove { path_or_name, canonical } => {
            let meant: Option<String> = match find_named(config, path_or_name.as_str()) {
                Some(i) => {
                    proof {
                        let k = choose|k: int| is_first_named(entries, path_or_name@, k);
                        assert(is_first_named(entries, path_or_name@, i as int));
                        assert(k == i);
                    }
                    Some(config.projects[i].0.clone())
                },
                None => match &canonical {
                    Some(path) => if config.contains(path.as_str()) {
                        Some(path.clone())
                    } else {
                        None
                    },
                    None => None,
                },
            };
            match meant {
                Some(path) => {
                    let shown = beautify_path(path.as_str(), current_dir);
                    config.remove(path.as_str());
                    CommandOutcome {
                        before: one("🗑️  Removing project: ".to_owned().concat(shown.as_str())),
                        save: true,
                        after: one("✅ Project successfully removed from workspace!".to_owned()),
                    }
                },
                None => {
                    let mut before = one(
                        "⚠️  Project not found: '".to_owned().concat(path_or_name.as_str()).concat(
                            "'",
                        ),
                    );
                    let ghost first = texts(before@);
                    before.push(
                        "💡 Use 'rust-devtools-mcp projects list' to see available projects".to_owned(),
                    );
                    assert(texts(before@) =~= first.push(
                        "💡 Use 'rust-devtools-mcp projects list' to see available projects"@,
                    ));
                    let outcome = CommandOutcome { before, save: false, after: none() };
                    assert(outcome@ =~= OutcomeView {
                        before: seq![
                            "⚠️  Project not found: '"@ + path_or_name@ + "'"@,
                            "💡 Use 'rust-devtools-mcp projects list' to see available projects"@,
                        ],
                        save: false,
                        after: seq![],
                    });
                    outcome
                },
            }
        },
        ProjectCommand::List => {
            if config.projects.len() == 0 {
                let mut before = one("📭 No projects found in the workspace.".to_owned());
                let ghost first = texts(before@);
                before.push(
                    "💡 Add a project using: rust-devtools-mcp projects add <path>".to_owned(),
                );
                assert(texts(before@) =~= first.push(
                    "💡 Add a project using: rust-devtools-mcp projects add <path>"@,
                ));
                let outcome = CommandOutcome { before, save: false, after: none() };
                assert(outcome@ =~= OutcomeView {
                    before: seq![
                        "📭 No projects found in the workspace."@,
                        "💡 Add a project using: rust-devtools-mcp projects add <path>"@,
                    ],
                    save: false,
                    after: seq![],
                });
                outcome
            } else {
                CommandOutcome {
                    before: list_projects(config, current_dir),
                    save: false,
                    after: none(),
                }
            }
        },
        ProjectCommand::Clear => {
            if config.projects.len() == 0 {
                CommandOutcome {
                    before: one(
                        "📭 No projects found in the workspace. Nothing to clear.".to_owned(),
                    ),
                    save: false,
                    after: none(),
                }
            } else {
                let count: usize = config.projects.len();
                *config = SerConfig::empty();
                CommandOutcome {
                    before: one(
                        "🧹 Clearing ".to_owned().concat(decimal(count as u64).as_str()).concat(
                            " project(s) from workspace...",
                        ),
                    ),
                    save: true,
                    after: one("✅ All projects successfully cleared from workspace!".to_owned()),
                }
            }
        },
    }
}

/// What a command leaves in a configuration, apart from what it shows.
pub open spec fn config_after(
    entries: Seq<(String, SerProject)>,
    config: Map<Seq<char>, ListedProject>,
    command: ProjectCommand,
) -> Map<Seq<char>, ListedProject> {
    command_result(entries, config, command, None).0
}

/// A project that is added is listed under its path, with the text of the path that was listed
/// before, if one was, and no other project changes.
pub proof fn law_added_project_is_listed(config: SerConfig, path: String, project: Project)
    ensures
        config_after(
            config.projects@,
            config@,
            ProjectCommand::Add { path, project },
        ).contains_key(normal_path(path@)),
        config_after(
            config.projects@,
            config@,
            ProjectCommand::Add { path, project },
        )[normal_path(path@)] == listed_under(config@, path@, saved_project(project@)),
        config_after(
            config.projects@,
            config@,
            ProjectCommand::Add { path, project },
        ).remove(normal_path(path@)) == config@.remove(normal_path(path@)),
{
    let after = config_after(config.projects@, config@, ProjectCommand::Add { path, project });
    assert(after.remove(normal_path(path@)) =~= config@.remove(normal_path(path@)));
}

/// A new project that is added and then removed by its path leaves the configuration as it was,
/// unless another project has the path for its name.
pub proof fn law_removal_undoes_addition(
    before: SerConfig,
    after: SerConfig,
    path: String,
    project: Project,
    path_or_name: String,
)
    requires
        !before@.contains_key(normal_path(path@)),
        after@ == config_after(before.projects@, before@, ProjectCommand::Add { path, project }),
        forall|i: int| !is_first_named(after.projects@, path_or_name@, i),
    ensures
        config_after(
            after.projects@,
            after@,
            ProjectCommand::Remove { path_or_name, canonical: Some(path) },
        ) == before@,
{
    let undone = config_after(
        after.projects@,
        after@,
        ProjectCommand::Remove { path_or_name, canonical: Some(path) },
    );
    assert(undone =~= before@);
}

/// A command that does not ask for the configuration to be saved leaves it as it is.
pub proof fn law_unsaved_commands_change_nothing(
    config: SerConfig,
    command: ProjectCommand,
    current: Option<Seq<char>>,
)
    ensures
        !command_result(config.projects@, config@, command, current).1.save ==> command_result(
            config.projects@,
            config@,
            command,
            current,
        ).0 == config@,
{
}

/// Two outcomes that are the same show the same lines before and after the configuration is saved,
/// and agree on whether it is.
pub proof fn law_outcome_is_known_by_what_it_shows(a: CommandOutcome, b: CommandOutcome)
    requires
        a@ == b@,
    ensures
        a.save == b.save,
        a.before@.len() == b.before@.len(),
        forall|i: int|
            0 <= i < a.before@.len() ==> (#[trigger] a.before@[i])@ == b.before@[i]@,
        a.after@.len() == b.after@.len(),
        forall|i: int| 0 <= i < a.after@.len() ==> (#[trigger] a.after@[i])@ == b.after@[i]@,
{
    law_texts_are_those_of_the_strings(a.before@);
    law_texts_are_those_of_the_strings(b.before@);
    law_texts_are_those_of_the_strings(a.after@);
    law_texts_are_those_of_the_strings(b.after@);
    assert forall|i: int| 0 <= i < a.before@.len() implies (#[trigger] a.before@[i])@
        == b.before@[i]@ by {
        assert(texts(a.before@)[i] == texts(b.before@)[i]);
    }
    assert forall|i: int| 0 <= i < a.after@.len() implies (#[trigger] a.after@[i])@
        == b.after@[i]@ by {
        assert(texts(a.after@)[i] == texts(b.after@)[i]);
    }
}

/// An addition saves the project with its root and the crates that it leaves out, under its path,
/// and shows the path.
pub proof fn law_addition_saves_the_project(
    config: SerConfig,
    path: String,
    project: Project,
    current: Option<Seq<char>>,
    other: Seq<char>,
)
    requires
        other != normal_path(path@),
    ensures
        ({
            let (after, outcome) = command_result(
                config.projects@,
                config@,
                ProjectCommand::Add { path, project },
                current,
            );
            let own = after[normal_path(path@)];
            &&& after.contains_key(normal_path(path@))
            &&& own.project.root == project.root@
            &&& own.project.ignore_crates.len() == project.ignore_crates@.len()
            &&& forall|i: int|
                0 <= i < project.ignore_crates@.len() ==> #[trigger] own.project.ignore_crates[i]
                    == project.ignore_crates@[i]@
            &&& !config@.contains_key(normal_path(path@)) ==> own.path == path@
            &&& config@.contains_key(normal_path(path@)) ==> own.path == config@[normal_path(
                path@,
            )].path
            &&& after.contains_key(other) <==> config@.contains_key(other)
            &&& after.contains_key(other) ==> after[other] == config@[other]
            &&& outcome.save
            &&& outcome.before == seq!["✅ Adding project: "@ + shown_path(path@, current)]
            &&& outcome.after == seq!["🎉 Project successfully added to workspace!"@]
        }),
{
}

/// A removal takes off the first project whose path ends in the name that is given, and no other. A
/// path that ends in no name counts as one that ends in an empty one.
pub proof fn law_removal_takes_the_first_with_the_name(
    config: SerConfig,
    path_or_name: String,
    canonical: Option<String>,
    current: Option<Seq<char>>,
    i: int,
)
    requires
        0 <= i < config.projects@.len(),
        match file_name_of(config.projects@[i].0@) {
            Some(name) => name == path_or_name@,
            None => path_or_name@.len() == 0,
        },
        forall|j: int|
            0 <= j < i ==> match file_name_of((#[trigger] config.projects@[j]).0@) {
                Some(name) => name != path_or_name@,
                None => path_or_name@.len() > 0,
            },
    ensures
        ({
            let (after, outcome) = command_result(
                config.projects@,
                config@,
                ProjectCommand::Remove { path_or_name, canonical },
                current,
            );
            let path = config.projects@[i].0@;
            &&& after == config@.remove(normal_path(path))
            &&& outcome.save
            &&& outcome.before == seq!["🗑️  Removing project: "@ + shown_path(path, current)]
            &&& outcome.after == seq!["✅ Project successfully removed from workspace!"@]
        }),
{
    reveal_strlit("");
    let entries = config.projects@;
    assert(""@.len() == 0);
    if path_or_name@.len() == 0 {
        assert(path_or_name@ =~= ""@);
    }
    assert(is_first_named(entries, path_or_name@, i));
    let k = choose|k: int| is_first_named(entries, path_or_name@, k);
    assert(is_first_named(entries, path_or_name@, k));
    assert(k == i) by {
        if k < i {
            assert(name_or(entries[k].0@, ""@) != path_or_name@);
        } else if i < k {
            assert(name_or(entries[i].0@, ""@) != path_or_name@);
        }
    }
}

/// Where no path ends in the name, a removal takes off the project that is listed under the path,
/// and no other; where none is, it takes off nothing and says so.
pub proof fn law_removal_takes_the_one_at_the_path(
    config: SerConfig,
    path_or_name: String,
    canonical: Option<String>,
    current: Option<Seq<char>>,
)
    requires
        forall|j: int|
            0 <= j < config.projects@.len() ==> match file_name_of(
                (#[trigger] config.projects@[j]).0@,
            ) {
                Some(name) => name != path_or_name@,
                None => path_or_name@.len() > 0,
            },
    ensures
        ({
            let (after, outcome) = command_result(
                config.projects@,
                config@,
                ProjectCommand::Remove { path_or_name, canonical },
                current,
            );
            let there = canonical is Some && config@.contains_key(normal_path(canonical->0@));
            &&& there ==> {
                &&& after == config@.remove(normal_path(canonical->0@))
                &&& outcome.save
                &&& outcome.before == seq![
                    "🗑️  Removing project: "@ + shown_path(canonical->0@, current),
                ]
                &&& outcome.after == seq!["✅ Project successfully removed from workspace!"@]
            }
            &&& !there ==> {
                &&& after == config@
                &&& !outcome.save
                &&& outcome.before == seq![
                    "⚠️  Project not found: '"@ + path_or_name@ + "'"@,
                    "💡 Use 'rust-devtools-mcp projects list' to see available projects"@,
                ]
                &&& outcome.after.len() == 0
            }
        }),
{
    reveal_strlit("");
    let entries = config.projects@;
    assert(""@.len() == 0);
    assert forall|k: int| !is_first_named(entries, path_or_name@, k) by {
        if is_first_named(entries, path_or_name@, k) {
            assert(name_or(entries[k].0@, ""@) == path_or_name@);
        }
    }
}

/// A listing shows every project on a line of its own, in the order of the configuration, by its
/// name and its root; it changes nothing.
pub proof fn law_listing_shows_every_project(
    config: SerConfig,
    current: Option<Seq<char>>,
    i: int,
)
    requires
        0 <= i < config.projects@.len(),
    ensures
        ({
            let (after, outcome) = command_result(
                config.projects@,
                config@,
                ProjectCommand::List,
                current,
            );
            let (path, project) = config.projects@[i];
            let name = match file_name_of(path@) {
                Some(name) => name,
                None => "<unknown>"@,
            };
            &&& after == config@
            &&& !outcome.save
            &&& outcome.after.len() == 0
            &&& outcome.before.len() == config.projects@.len() + 1
            &&& outcome.before[0] == "📋 Projects in workspace:"@
            &&& outcome.before[i + 1] == "  • "@ + name + " "@ + shown_path(project.root@, current)
        }),
{
}

/// A configuration without projects is listed as such, and there is nothing to clear in it. Else
/// clearing leaves no project, and tells how many there were.
pub proof fn law_clearing_leaves_no_project(config: SerConfig, current: Option<Seq<char>>)
    requires
        config.wf(),
    ensures
        ({
            let n = config.projects@.len();
            let (after, outcome) = command_result(
                config.projects@,
                config@,
                ProjectCommand::Clear,
                current,
            );
            let listed = command_result(
                config.projects@,
                config@,
                ProjectCommand::List,
                current,
            ).1.before;
            &&& after.dom().len() == 0
            &&& forall|key: Seq<char>| !#[trigger] after.contains_key(key)
            &&& outcome.save <==> n > 0
            &&& n == 0 ==> listed == seq![
                "📭 No projects found in the workspace."@,
                "💡 Add a project using: rust-devtools-mcp projects add <path>"@,
            ]
            &&& n == 0 ==> outcome.before == seq![
                "📭 No projects found in the workspace. Nothing to clear."@,
            ] && outcome.after.len() == 0
            &&& n > 0 ==> outcome.before == seq![
                "🧹 Clearing "@ + digits_of(n) + " project(s) from workspace..."@,
            ] && outcome.after == seq!["✅ All projects successfully cleared from workspace!"@]
        }),
{
    if config.projects@.len() == 0 {
        assert(config@ =~= Map::<Seq<char>, ListedProject>::empty());
    }
}

}
