use rust_devtools_mcp::context::{Context, ContextEffect};
use rust_devtools_mcp::edits::{Position, Range, TextEdit};
use rust_devtools_mcp::manage::{
    check_added_path, manage_projects, AddStep, ManageRun, ManageStep,
};
use rust_devtools_mcp::notification::{McpNotification, ProjectDescription};
use rust_devtools_mcp::project::{Project, TransportType};
use rust_devtools_mcp::reply::{Content, ErrorKind, ToolResult};
use rust_devtools_mcp::resources::{
    execute_code_action, get_prompt, ResourceContent, TakenAction, PROMPT_DESCRIPTION, PROMPT_NAME,
};
use rust_devtools_mcp::server::{DevToolsServer, RefreshStart, Start};
use rust_devtools_mcp::tools::{CompilerMessage, Span};
use rust_devtools_mcp::workspace::{FileEdits, WorkspaceEdit};

fn context(roots: &[&str]) -> Context {
    let mut context = Context::new(TransportType::Stdio, "c".to_string());
    for root in roots {
        context.add_project(Project::new(root.to_string()), Ok(())).unwrap();
    }
    context
}

fn some(text: &str) -> Option<String> {
    Some(text.to_string())
}

fn lines(result: &ToolResult) -> Vec<String> {
    result
        .content
        .iter()
        .map(|c| match c {
            Content::Text(text) => text.clone(),
            other => panic!("{:?}", other),
        })
        .collect()
}

fn edit() -> WorkspaceEdit {
    let start = Position { line: 0, character: 0 };
    let edits = vec![TextEdit { range: Range { start, end: start }, new_text: "x".to_string() }];
    let file = FileEdits { uri: "file:///a.rs".to_string(), edits };
    WorkspaceEdit { changes: Some(vec![file]), other: None }
}

fn diagnostics(file: &str, line: usize) -> Vec<CompilerMessage> {
    let span = Span {
        file_name: file.to_string(),
        is_primary: true,
        line_start: line,
        line_end: line,
        column_start: 4,
        column_end: 5,
    };
    vec![CompilerMessage {
        level: "warning".to_string(),
        rendered: "unused".to_string(),
        spans: vec![span],
    }]
}

#[test]
fn named_project_is_remembered() {
    let context = context(&["/srv/app", "/srv/lib"]);
    let mut server = DevToolsServer::new();
    match server.select_project(&context, some("lib")) {
        Start::Ready { project_name, root } => {
            assert_eq!((project_name.as_str(), root.as_str()), ("lib", "/srv/lib"))
        }
        other => panic!("{:?}", other),
    }
    match server.select_project(&context, None) {
        Start::Ready { root, .. } => assert_eq!(root, "/srv/lib"),
        other => panic!("{:?}", other),
    }
}

#[test]
fn any_project_is_used_where_none_is_named() {
    let context = context(&["/srv/app"]);
    let mut server = DevToolsServer::new();
    match server.select_project(&context, None) {
        Start::Ready { project_name, .. } => assert_eq!(project_name, "app"),
        other => panic!("{:?}", other),
    }
    assert_eq!(server.last_project(), some("app"));
}

#[test]
fn missing_projects_are_told() {
    let mut server = DevToolsServer::new();
    match server.select_project(&context(&[]), None) {
        Start::Answer(outcome) => {
            let error = outcome.reply.unwrap_err();
            assert_eq!(error.kind, ErrorKind::InvalidParams);
            assert_eq!(error.message, "No project_name provided and no projects available. Please use manage_projects with add_project_path parameter to load a project first.");
        }
        other => panic!("{:?}", other),
    }
    match server.select_project(&context(&[]), some("x")) {
        Start::Answer(outcome) => {
            assert_eq!(lines(&outcome.reply.unwrap()), vec!["Project 'x' not found."])
        }
        other => panic!("{:?}", other),
    }
    assert_eq!(server.last_project(), some("x"));
}

#[test]
fn unnamed_root_stops_the_choice() {
    let mut server = DevToolsServer::new();
    let context = context(&["/"]);
    assert!(matches!(server.select_project(&context, None), Start::Unnamed));
    assert!(matches!(server.select_project(&context, some("x")), Start::Answer(_)));
}

#[test]
fn action_ids_are_plain() {
    let server = DevToolsServer::new();
    let id = |target: &str| server.generate_action_id("rename", target);
    assert_eq!(id("old_func_to_new_func"), "rename_old_func_to_new_func");
    assert_eq!(id("a::b c%25_to_d"), "rename_a%3A%3Ab%20c%2525_to_d");
    assert_eq!(id("a:b%c:::d"), "rename_a:b%c%3A%3A:d");
}

#[test]
fn action_ids_differ() {
    let server = DevToolsServer::new();
    let targets = ["a b", "a_b", "a::b", "a%20b", "a:_b", "a%3A%3Ab", "a%253A:b"];
    for (i, first) in targets.iter().enumerate() {
        for second in &targets[i + 1..] {
            let id = |target: &str| server.generate_action_id("fix", target);
            assert_ne!(id(first), id(second));
        }
    }
}

#[test]
fn kept_renamings_do_not_replace_each_other() {
    let mut server = DevToolsServer::new();
    let names = [
        ("a_to_b", "c"),
        ("a", "b_to_c"),
        ("a~1to_b", "c"),
        ("a~0", "c"),
        ("a~", "0_to_c"),
        ("a_to", "c"),
        ("a", "to_c"),
        ("next_token", "peek"),
    ];
    for (symbol_name, new_name) in names {
        server.preview_rename("app", symbol_name, new_name, &edit());
    }
    match &server.list_code_actions().content[0] {
        Content::Actions(actions) => {
            assert_eq!(actions.len(), names.len());
            assert!(actions.iter().any(|a| a.id == "rename_a_to_b_to_c"));
            assert!(actions.iter().any(|a| a.id == "rename_a~1to_b_to_c"));
            assert!(actions.iter().any(|a| a.id == "rename_next_token_to_peek"));
        }
        other => panic!("{:?}", other),
    }
}

#[test]
fn kept_renaming_is_read_and_executed_once() {
    let context = context(&["/srv/app"]);
    let mut server = DevToolsServer::new();
    assert_eq!(lines(&server.list_code_actions()), vec!["No code actions available."]);
    let outcome = server.preview_rename("app", "old", "new", &edit());
    assert!(outcome.notify && !outcome.refresh);
    match &outcome.reply.unwrap().content[0] {
        Content::Rename(report) => {
            assert_eq!(report.status, "preview");
            assert_eq!(report.action_id, some("rename_old_to_new"));
            assert_eq!(report.message, "Created rename preview. Use execute_code_action('rename_old_to_new') to apply changes.");
        }
        other => panic!("{:?}", other),
    }
    match server.read_resource("code-action://rename_old_to_new") {
        Ok(ResourceContent::Action(action)) => {
            assert_eq!(action.title, "Rename 'old' to 'new'");
            assert_eq!(action.kind, some("refactor"));
            assert_eq!(action.description, "Rename symbol 'old' to 'new'");
            assert_eq!(action.project_name, "app");
        }
        other => panic!("{:?}", other),
    }
    match &server.list_code_actions().content[0] {
        Content::Actions(actions) => {
            assert_eq!(actions.len(), 1);
            assert_eq!(actions[0].id, "rename_old_to_new");
        }
        other => panic!("{:?}", other),
    }
    let resources = server.list_resources();
    assert_eq!(resources[0].uri, "code-action://rename_old_to_new");
    assert_eq!(resources[0].name, "Rename 'old' to 'new'");
    let (action, taken) = match server.take_code_action("rename_old_to_new") {
        TakenAction::Apply { action, edit } => (action, edit),
        other => panic!("{:?}", other),
    };
    assert_eq!(taken.files_affected(), vec!["file:///a.rs"]);
    let (outcome, root) = execute_code_action(&context, &action, Ok(()));
    assert!(outcome.notify && outcome.refresh);
    assert_eq!(
        lines(&outcome.reply.unwrap()),
        vec!["✓ Executed code action 'Rename 'old' to 'new'': Rename symbol 'old' to 'new'"]
    );
    assert_eq!(root, some("/srv/app"));
    let (outcome, root) = execute_code_action(&context, &action, Err("full".to_string()));
    assert!(!outcome.notify && !outcome.refresh);
    let result = outcome.reply.unwrap();
    assert_eq!(lines(&result), vec!["Failed to execute code action 'Rename 'old' to 'new'': full"]);
    assert!(result.is_error && root.is_none());
    match server.take_code_action("rename_old_to_new") {
        TakenAction::Answer(result) => {
            assert_eq!(lines(&result), vec!["Code action with ID 'rename_old_to_new' not found."])
        }
        other => panic!("{:?}", other),
    }
}

#[test]
fn update_drops_the_actions_of_its_project() {
    let context = context(&["/srv/app", "/srv/lib"]);
    let mut server = DevToolsServer::new();
    server.preview_rename("app", "a", "b", &edit());
    server.preview_rename("lib", "c", "d", &edit());
    server.auto_update_code_actions(&context, "/srv/app").unwrap();
    assert!(server.read_resource("code-action://rename_a_to_b").is_err());
    assert!(server.read_resource("code-action://rename_c_to_d").is_ok());
    match &server.refreshed_project("app").reply.unwrap().content[0] {
        Content::Refresh(report) => {
            assert_eq!(report.status, "success");
            assert_eq!(report.project, some("app"));
            assert_eq!(report.action_count, 0);
            assert_eq!(report.message, "Refreshed 0 code actions for project 'app'");
        }
        other => panic!("{:?}", other),
    }
    match &server.refreshed_project("lib").reply.unwrap().content[0] {
        Content::Refresh(report) => assert_eq!(report.action_count, 1),
        other => panic!("{:?}", other),
    }
}

#[test]
fn update_replaces_diagnostics() {
    let context = context(&["/srv/app", "/srv/lib"]);
    let mut server = DevToolsServer::new();
    let sent = server.finish_update("/srv/app", Ok(diagnostics("src/a.rs", 3)));
    match sent {
        Some(McpNotification::CodeActionsUpdated { project, action_count }) => {
            assert_eq!((project.as_str(), action_count), ("/srv/app", 0))
        }
        other => panic!("{:?}", other),
    }
    server.finish_update("/srv/lib", Ok(diagnostics("src\\b.rs", 5)));
    server.finish_update("/srv/lib", Ok(diagnostics("app/c.rs", 6)));
    let first = "diagnostic://diagnostic_src_a.rs_3_line_4";
    let second = "diagnostic://diagnostic_src_b.rs_5_line_4";
    let third = "diagnostic://diagnostic_app_c.rs_6_line_4";
    match server.read_resource(first) {
        Ok(ResourceContent::Diagnostic(diagnostic)) => {
            assert_eq!(diagnostic.file_path, "src/a.rs");
            assert_eq!(diagnostic.message, "unused");
            assert!(diagnostic.available_fixes.is_empty());
        }
        other => panic!("{:?}", other),
    }
    assert!(server.read_resource(second).is_ok() && server.read_resource(third).is_ok());
    server.auto_update_code_actions(&context, "/srv/app").unwrap();
    assert!(server.read_resource(first).is_err());
    assert!(server.read_resource(second).is_ok());
    assert!(server.read_resource(third).is_ok());
    assert!(server.finish_update("/srv/app", Err("no cargo".to_string())).is_none());
    assert!(server.read_resource(first).is_err());
}

#[test]
fn unknown_project_is_not_updated() {
    let mut server = DevToolsServer::new();
    let error = server.auto_update_code_actions(&context(&[]), "/a").unwrap_err();
    assert_eq!(error.kind, ErrorKind::Internal);
    assert_eq!(error.message, "Project not found");
}

#[test]
fn refresh_of_all_projects_updates_each() {
    let context = context(&["/srv/app", "/srv/lib"]);
    let mut server = DevToolsServer::new();
    server.preview_rename("app", "a", "b", &edit());
    server.finish_update("/srv/old", Ok(diagnostics("src/gone.rs", 1)));
    let mut roots = match server.refresh_code_actions(&context, None) {
        RefreshStart::UpdateAll { roots } => roots,
        other => panic!("{:?}", other),
    };
    assert!(server.list_resources().is_empty());
    assert_eq!(server.last_project(), None);
    roots.sort();
    assert_eq!(roots, vec!["/srv/app", "/srv/lib"]);
    for root in &roots {
        server.auto_update_code_actions(&context, root).unwrap();
        let file = format!("src{}.rs", root);
        match server.finish_update(root, Ok(diagnostics(&file, 3))) {
            Some(McpNotification::CodeActionsUpdated { project, .. }) => assert_eq!(&project, root),
            other => panic!("{:?}", other),
        }
    }
    let mut uris: Vec<String> = server.list_resources().into_iter().map(|r| r.uri).collect();
    uris.sort();
    assert_eq!(
        uris,
        vec![
            "diagnostic://diagnostic_src_srv_app.rs_3_line_4",
            "diagnostic://diagnostic_src_srv_lib.rs_3_line_4"
        ]
    );
    let outcome = server.refreshed_all();
    assert!(!outcome.notify && !outcome.refresh);
    match &outcome.reply.unwrap().content[0] {
        Content::Refresh(report) => {
            assert_eq!(report.status, "success");
            assert_eq!(report.project, None);
            assert_eq!(report.action_count, 0);
            assert_eq!(report.message, "Refreshed code actions for all projects. Total: 0 actions");
        }
        other => panic!("{:?}", other),
    }
    server.preview_rename("app", "a", "b", &edit());
    match &server.refreshed_all().reply.unwrap().content[0] {
        Content::Refresh(report) => {
            assert_eq!(report.message, "Refreshed code actions for all projects. Total: 1 actions")
        }
        other => panic!("{:?}", other),
    }
}

#[test]
fn listed_resources_are_read() {
    let mut server = DevToolsServer::new();
    server.preview_rename("app", "a", "b", &edit());
    server.finish_update("/srv/app", Ok(diagnostics("src/a.rs", 3)));
    let resources = server.list_resources();
    assert_eq!(resources.len(), 2);
    for resource in &resources {
        assert!(server.read_resource(&resource.uri).is_ok());
    }
    assert_eq!(resources[1].name, "Diagnostic: unused");
    assert_eq!(resources[1].description, "src/a.rs:3 - unused (warning)");
}

#[test]
fn unknown_resources_are_refused() {
    let server = DevToolsServer::new();
    let message = |uri: &str| server.read_resource(uri).unwrap_err().message;
    assert_eq!(message("code-action://x"), "Code action with ID 'x' not found");
    assert_eq!(message("diagnostic://y"), "Diagnostic with ID 'y' not found");
    assert_eq!(message("file:///z"), "Invalid resource URI: file:///z");
}

#[test]
fn prompts_are_described() {
    assert_eq!(get_prompt(PROMPT_NAME).unwrap(), PROMPT_DESCRIPTION);
    let error = get_prompt("other").unwrap_err();
    assert_eq!(error.kind, ErrorKind::Internal);
    assert_eq!(error.message, "Unknown prompt: other");
}

#[test]
fn managed_project_is_removed() {
    let mut context = context(&["/srv/app"]);
    let mut server = DevToolsServer::new();
    server.get_project_name(&context, some("app")).unwrap();
    let (message, effects) = server.manage_removal(&mut context, "app").unwrap();
    assert_eq!(message, "Successfully removed project: app");
    assert_eq!(effects.len(), 2);
    assert_eq!(server.last_project(), None);
    assert!(context.get_project("/srv/app").is_none());
    let refused = server.manage_removal(&mut context, "app").unwrap_err();
    assert_eq!(
        lines(&refused),
        vec!["Project 'app' not found. Cannot remove non-existent project."]
    );
}

#[test]
fn other_project_stays_remembered() {
    let mut context = context(&["/srv/app"]);
    let mut server = DevToolsServer::new();
    server.get_project_name(&context, some("lib")).unwrap();
    server.manage_removal(&mut context, "app").unwrap();
    assert_eq!(server.last_project(), some("lib"));
}

#[test]
fn added_paths_are_checked() {
    let context = context(&["/srv/app"]);
    match check_added_path(&context, "~/x", Err("no such file".to_string())) {
        AddStep::Refuse(result) => {
            assert_eq!(lines(&result), vec!["Invalid project path '~/x': no such file"])
        }
        other => panic!("{:?}", other),
    }
    let loaded = check_added_path(&context, "app", Ok("/srv/app".to_string()));
    assert!(matches!(loaded, AddStep::Loaded(m) if m == "Project /srv/app is already loaded."));
    let fresh = check_added_path(&context, "lib", Ok("/srv/lib".to_string()));
    assert!(matches!(fresh, AddStep::Load(root) if root == "/srv/lib"));
}

#[test]
fn managed_project_is_added() {
    let mut context = context(&[]);
    let mut server = DevToolsServer::new();
    let project = || Ok(Project::new("/srv/app".to_string()));
    let failed = server.manage_addition(&mut context, "/srv/app", Err("e".to_string()), Ok(()));
    assert_eq!(lines(&failed.unwrap_err()), vec!["Failed to initialize project: e"]);
    let failed = server.manage_addition(&mut context, "/srv/app", project(), Err("f".to_string()));
    assert_eq!(lines(&failed.unwrap_err()), vec!["Failed to load project: f"]);
    assert_eq!(server.last_project(), None);
    let added = server.manage_addition(&mut context, "/srv/app", project(), Ok(()));
    let (message, effects) = added.unwrap();
    assert_eq!(message, "Successfully added project: app (set as current project)");
    assert!(matches!(effects[0], ContextEffect::DescribeProjects));
    assert_eq!(server.last_project(), some("app"));
    assert!(context.get_project("/srv/app").is_some());
}

#[test]
fn overview_lists_projects() {
    let project = |name: &str, is_indexing_lsp| ProjectDescription {
        root: format!("/srv/{}", name),
        name: name.to_string(),
        is_indexing_lsp,
    };
    let none = manage_projects(vec![], &vec![]);
    assert_eq!(lines(&none), vec!["No projects currently loaded. Use 'manage_projects' with add_project_path parameter to load one."]);
    let plain = manage_projects(vec![], &vec![project("app", false)]);
    assert_eq!(lines(&plain), vec!["Currently loaded projects:", "- app (/srv/app) (ready)"]);
    let done = manage_projects(vec!["done".to_string()], &vec![project("app", true)]);
    assert_eq!(
        lines(&done),
        vec!["done", "", "Currently loaded projects:", "- app (/srv/app) (indexing...)"]
    );
}

#[test]
fn refresh_of_a_project_forgets_it() {
    let context = context(&["/srv/app", "/srv/lib"]);
    let mut server = DevToolsServer::new();
    server.preview_rename("app", "a", "b", &edit());
    server.preview_rename("lib", "c", "d", &edit());
    match server.refresh_code_actions(&context, some("app")) {
        RefreshStart::Check { project_name, root } => {
            assert_eq!((project_name.as_str(), root.as_str()), ("app", "/srv/app"))
        }
        other => panic!("{:?}", other),
    }
    assert!(server.read_resource("code-action://rename_a_to_b").is_err());
    assert!(server.read_resource("code-action://rename_c_to_d").is_ok());
    match server.refresh_code_actions(&context, some("none")) {
        RefreshStart::Answer(outcome) => {
            assert_eq!(lines(&outcome.reply.unwrap()), vec!["Project 'none' not found."])
        }
        other => panic!("{:?}", other),
    }
    assert!(server.read_resource("code-action://rename_c_to_d").is_ok());
}

#[test]
fn run_removes_then_adds_then_lists() {
    let mut context = context(&["/srv/app"]);
    let mut server = DevToolsServer::new();
    let (mut run, step, effects) =
        ManageRun::start(&mut server, &mut context, some("/srv/lib"), some("app"), None);
    assert!(matches!(step, ManageStep::Canonicalize(p) if p == "/srv/lib"));
    assert_eq!(effects.len(), 2);
    let step = run.on_canonical(&context, Ok("/srv/lib".to_string()));
    assert!(matches!(step, ManageStep::Load(root) if root == "/srv/lib"));
    let project = Ok(Project::new("/srv/lib".to_string()));
    let (step, effects) = run.on_loaded(&mut server, &mut context, project, Ok(()));
    assert!(matches!(step, ManageStep::List));
    assert_eq!(effects.len(), 3);
    let result = run.on_listed(&context.named_descriptions().unwrap());
    assert_eq!(
        lines(&result),
        vec![
            "Successfully removed project: app",
            "Successfully added project: lib (set as current project)",
            "",
            "Currently loaded projects:",
            "- lib (/srv/lib) (indexing...)"
        ]
    );
}

#[test]
fn failed_removal_ends_the_run() {
    let mut context = context(&[]);
    let mut server = DevToolsServer::new();
    let (_, step, effects) =
        ManageRun::start(&mut server, &mut context, some("/srv/lib"), some("app"), None);
    match step {
        ManageStep::Answer(result) => assert_eq!(
            lines(&result),
            vec!["Project 'app' not found. Cannot remove non-existent project."]
        ),
        other => panic!("{:?}", other),
    }
    assert!(effects.is_empty());
}

#[test]
fn loaded_project_is_not_loaded_again() {
    let mut context = context(&["/srv/app"]);
    let mut server = DevToolsServer::new();
    let (mut run, _, _) = ManageRun::start(&mut server, &mut context, some("/srv/app"), None, None);
    let step = run.on_canonical(&context, Ok("/srv/app".to_string()));
    assert!(matches!(step, ManageStep::List));
    assert_eq!(run.done, vec!["Project /srv/app is already loaded."]);
    let (mut run, _, _) = ManageRun::start(&mut server, &mut context, some("x"), None, None);
    match run.on_canonical(&context, Err("missing".to_string())) {
        ManageStep::Answer(result) => {
            assert_eq!(lines(&result), vec!["Invalid project path 'x': missing"])
        }
        other => panic!("{:?}", other),
    }
    let (run, step, _) = ManageRun::start(&mut server, &mut context, None, None, None);
    assert!(matches!(step, ManageStep::List) && run.done.is_empty());
}

#[test]
fn added_path_may_start_at_home() {
    let mut context = context(&[]);
    let mut server = DevToolsServer::new();
    let (_, step, _) =
        ManageRun::start(&mut server, &mut context, some("~/app"), None, Some("/home/me"));
    assert!(matches!(step, ManageStep::Canonicalize(p) if p == "/home/me/app"));
    assert_eq!(context.config_path(), "c");
    assert_eq!(context.transport(), &TransportType::Stdio);
}
