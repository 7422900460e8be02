use rust_devtools_mcp::commands::{handle_projects, CommandOutcome, ProjectCommand};
use rust_devtools_mcp::config::{SerConfig, SerProject};
use rust_devtools_mcp::project::Project;

fn add(config: &mut SerConfig, path: &str) -> CommandOutcome {
    let project = Project::new(path.to_string());
    handle_projects(config, ProjectCommand::Add { path: path.to_string(), project }, None)
}

fn remove(config: &mut SerConfig, path_or_name: &str, canonical: Option<&str>) -> CommandOutcome {
    let command = ProjectCommand::Remove {
        path_or_name: path_or_name.to_string(),
        canonical: canonical.map(|p| p.to_string()),
    };
    handle_projects(config, command, None)
}

#[test]
fn project_is_added() {
    let mut config = SerConfig::empty();
    let outcome = add(&mut config, "/srv/app");
    assert_eq!(outcome.before, vec!["✅ Adding project: 📁 /srv/app"]);
    assert!(outcome.save);
    assert_eq!(outcome.after, vec!["🎉 Project successfully added to workspace!"]);
    assert!(config.contains("/srv/app"));
    assert!(config.contains("/srv//app/"));
    assert_eq!(config.projects[0].1.root, "/srv/app");
}

#[test]
fn path_is_listed_once() {
    let mut config = SerConfig::empty();
    add(&mut config, "/srv/app");
    let project = SerProject { root: "/srv/app".to_string(), ignore_crates: vec!["x".to_string()] };
    config.insert("/srv/./app".to_string(), project);
    assert_eq!(config.projects.len(), 1);
    assert_eq!(config.projects[0].0, "/srv/app");
    assert_eq!(config.projects[0].1.ignore_crates, vec!["x"]);
}

#[test]
fn project_is_removed_by_name() {
    let mut config = SerConfig::empty();
    add(&mut config, "/srv/app");
    add(&mut config, "/srv/lib");
    let outcome = remove(&mut config, "app", Some("/srv/lib"));
    assert_eq!(outcome.before, vec!["🗑️  Removing project: 📁 /srv/app"]);
    assert!(outcome.save);
    assert_eq!(outcome.after, vec!["✅ Project successfully removed from workspace!"]);
    assert!(!config.contains("/srv/app") && config.contains("/srv/lib"));
}

#[test]
fn removal_undoes_addition() {
    let mut config = SerConfig::empty();
    add(&mut config, "/srv/lib");
    add(&mut config, "/srv/app");
    remove(&mut config, "./app", Some("/srv/app"));
    assert_eq!(config.projects.len(), 1);
    assert_eq!(config.projects[0].0, "/srv/lib");
}

#[test]
fn unknown_project_is_not_removed() {
    let mut config = SerConfig::empty();
    add(&mut config, "/srv/app");
    let outcome = remove(&mut config, "other", Some("/srv/other"));
    assert_eq!(
        outcome.before,
        vec![
            "⚠️  Project not found: 'other'",
            "💡 Use 'rust-devtools-mcp projects list' to see available projects"
        ]
    );
    assert!(!outcome.save && outcome.after.is_empty());
    assert_eq!(config.projects.len(), 1);
    assert!(!remove(&mut config, "other", None).save);
}

#[test]
fn projects_are_listed() {
    let mut config = SerConfig::empty();
    let empty = handle_projects(&mut config, ProjectCommand::List, None);
    assert_eq!(
        empty.before,
        vec![
            "📭 No projects found in the workspace.",
            "💡 Add a project using: rust-devtools-mcp projects add <path>"
        ]
    );
    add(&mut config, "/srv/app");
    add(&mut config, "/");
    let listed = handle_projects(&mut config, ProjectCommand::List, Some("/srv"));
    assert_eq!(
        listed.before,
        vec!["📋 Projects in workspace:", "  • app 📁 ./app", "  • <unknown> 📁 /"]
    );
    assert!(!listed.save);
}

#[test]
fn projects_are_cleared() {
    let mut config = SerConfig::empty();
    let empty = handle_projects(&mut config, ProjectCommand::Clear, None);
    assert_eq!(empty.before, vec!["📭 No projects found in the workspace. Nothing to clear."]);
    assert!(!empty.save);
    add(&mut config, "/srv/app");
    add(&mut config, "/srv/lib");
    let cleared = handle_projects(&mut config, ProjectCommand::Clear, None);
    assert_eq!(cleared.before, vec!["🧹 Clearing 2 project(s) from workspace..."]);
    assert!(cleared.save);
    assert_eq!(cleared.after, vec!["✅ All projects successfully cleared from workspace!"]);
    assert!(config.projects.is_empty());
}
