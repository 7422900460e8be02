use rust_devtools_mcp::context::{
    load_project, ConfigFile, ConfigLoad, Context, ContextEffect, RootFacts,
};
use rust_devtools_mcp::notification::{ContextNotification, LspNotification, McpNotification};
use rust_devtools_mcp::project::{Project, TransportType};

fn context() -> Context {
    Context::new(TransportType::Stdio, "/etc/config.toml".to_string())
}

fn load(context: &mut Context, root: &str) -> Vec<ContextEffect> {
    context.add_project(Project::new(root.to_string()), Ok(())).unwrap()
}

#[test]
fn addresses_of_transports() {
    let sse = TransportType::Sse { host: "localhost".to_string(), port: 4000 };
    let http = TransportType::StreamableHttp { host: "::1".to_string(), port: 80 };
    assert_eq!(context().address_information(), ("stdio".to_string(), 0));
    let context = Context::new(sse, "c".to_string());
    assert_eq!(context.address_information(), ("localhost".to_string(), 4000));
    let context = Context::new(http.clone(), "c".to_string());
    assert_eq!(context.address_information(), ("::1".to_string(), 80));
    assert_eq!(context.transport(), &http);
    assert_eq!(context.config_path(), "c");
}

#[test]
fn client_configuration() {
    let sse = TransportType::Sse { host: "localhost".to_string(), port: 4000 };
    let text = Context::new(sse, "c".to_string()).mcp_configuration();
    assert!(text.contains("\"url\": \"http://localhost:4000/sse\""));
    let http = TransportType::StreamableHttp { host: "h".to_string(), port: 1 };
    let text = Context::new(http, "c".to_string()).mcp_configuration();
    assert_eq!(
        text,
        "\n{\n    \"mcpServers\": {\n        \"rust-devtools-mcp\": {\n            \"url\": \"http://h:1/mcp\"\n        }\n    }\n}\n"
    );
    let stdio = context().mcp_configuration();
    assert!(stdio.contains("\"args\": [\"serve\", \"--transport\", \"stdio\"]"));
}

#[test]
fn added_project_is_found() {
    let mut context = context();
    let effects = load(&mut context, "/srv/app");
    assert_eq!(effects.len(), 3);
    assert!(matches!(effects[0], ContextEffect::DescribeProjects));
    match &effects[1] {
        ContextEffect::WriteConfig(config) => {
            assert_eq!(config.projects.len(), 1);
            assert_eq!(config.projects[0].0, "/srv/app");
            assert_eq!(config.projects[0].1.root, "/srv/app");
        }
        other => panic!("{:?}", other),
    }
    match &effects[2] {
        ContextEffect::Notify(ContextNotification::ProjectAdded(root)) => {
            assert_eq!(root, "/srv/app")
        }
        other => panic!("{:?}", other),
    }
    assert!(context.get_project("/srv/app").unwrap().is_indexing_lsp);
    assert!(context.get_project("/srv//app/").is_some());
    assert!(context.get_project("/srv").is_none());
    assert_eq!(context.find_project_by_name("app"), Some("/srv/app".to_string()));
    assert_eq!(context.find_project_by_name("srv"), None);
}

#[test]
fn project_without_server_is_not_added() {
    let mut context = context();
    let failed = context.add_project(Project::new("/a".to_string()), Err("no server".to_string()));
    assert_eq!(failed.unwrap_err(), "no server");
    assert!(context.get_project("/a").is_none());
}

#[test]
fn project_of_a_path() {
    let mut context = context();
    load(&mut context, "/srv/app");
    load(&mut context, "/srv/app/sub");
    let root = |path: &str| context.get_project_by_path(path).map(|p| p.project.root);
    assert_eq!(root("/srv/app/src/lib.rs"), Some("/srv/app".to_string()));
    assert_eq!(root("/srv/app/sub/x"), Some("/srv/app/sub".to_string()));
    assert_eq!(root("/srv/app"), Some("/srv/app".to_string()));
    assert_eq!(root("/srv"), None);
    assert_eq!(root(""), None);
}

#[test]
fn removed_project_is_gone() {
    let mut context = context();
    load(&mut context, "/srv/app");
    let (project, effects) = context.remove_project("/srv/app");
    assert_eq!(project.unwrap().project.root, "/srv/app");
    assert_eq!(effects.len(), 2);
    assert!(matches!(
        &effects[0],
        ContextEffect::Notify(ContextNotification::ProjectRemoved(root)) if root == "/srv/app"
    ));
    assert!(matches!(&effects[1], ContextEffect::WriteConfig(c) if c.projects.is_empty()));
    let (project, effects) = context.remove_project("/srv/app");
    assert!(project.is_none() && effects.is_empty());
}

#[test]
fn project_is_removed_by_path_or_name() {
    let mut context = context();
    load(&mut context, "/srv/app");
    load(&mut context, "/srv/lib");
    load(&mut context, "/srv/bin");
    let (by_name, _) = context.remove_project_by_path_or_name("app", Some("/srv/lib".to_string()));
    assert_eq!(by_name.unwrap().project.root, "/srv/app");
    let (by_path, _) = context.remove_project_by_path_or_name("./lib", Some("/srv/lib".to_string()));
    assert_eq!(by_path.unwrap().project.root, "/srv/lib");
    let (none, effects) = context.remove_project_by_path_or_name("x", None);
    assert!(none.is_none() && effects.is_empty());
    assert_eq!(context.shutdown_all(), vec!["/srv/bin"]);
}

#[test]
fn projects_are_described() {
    let mut context = context();
    load(&mut context, "/srv/app");
    load(&mut context, "/srv/lib");
    let quiet = LspNotification::Indexing {
        project: "/srv/app".to_string(),
        is_indexing: false,
        progress: None,
    };
    assert!(matches!(context.on_lsp_notification(quiet), ContextNotification::Lsp(_)));
    let mut shown: Vec<(String, String, bool)> = context
        .named_descriptions()
        .unwrap()
        .into_iter()
        .map(|d| (d.root, d.name, d.is_indexing_lsp))
        .collect();
    shown.sort();
    assert_eq!(
        shown,
        vec![
            ("/srv/app".to_string(), "app".to_string(), false),
            ("/srv/lib".to_string(), "lib".to_string(), true)
        ]
    );
    assert!(matches!(
        context.request_project_descriptions(),
        Some(ContextNotification::ProjectDescriptions(d)) if d.len() == 2
    ));
    let mut roots = context.shutdown_all();
    roots.sort();
    assert_eq!(roots, vec!["/srv/app", "/srv/lib"]);
}

#[test]
fn root_without_name_is_not_described() {
    let mut context = context();
    load(&mut context, "/");
    assert!(context.named_descriptions().is_none());
    assert!(context.request_project_descriptions().is_none());
}

#[test]
fn unknown_project_is_not_indexed() {
    let mut context = context();
    let message = LspNotification::Indexing {
        project: "/a".to_string(),
        is_indexing: true,
        progress: None,
    };
    context.on_lsp_notification(message);
    assert!(context.get_project("/a").is_none());
}

#[test]
fn tool_messages_are_passed_on() {
    let message =
        McpNotification::CodeActionsUpdated { project: "/a".to_string(), action_count: 3 };
    match context().send_mcp_notification(message) {
        ContextNotification::Mcp(McpNotification::CodeActionsUpdated { project, action_count }) => {
            assert_eq!((project.as_str(), action_count), ("/a", 3))
        }
        other => panic!("{:?}", other),
    }
}

#[test]
fn saved_projects_load_again() {
    let mut context = context();
    let mut project = Project::new("/srv/app".to_string());
    project.ignore_crates.push("x".to_string());
    context.add_project(project, Ok(())).unwrap();
    let config = context.config_to_write();
    assert_eq!(config.projects[0].1.ignore_crates, vec!["x"]);
    let root = config.projects[0].1.root.clone();
    let facts = RootFacts { exists: true, is_dir: true, canonical: Ok(root) };
    let loaded = load_project(facts).unwrap();
    assert_eq!(loaded.root, "/srv/app");
    assert!(loaded.ignore_crates.is_empty());
}

#[test]
fn listed_roots_are_loaded() {
    let mut context = context();
    load(&mut context, "/srv/app");
    let config = context.config_to_write();
    assert_eq!(context.listed_roots(Ok(config)), vec!["/srv/app"]);
    assert!(context.listed_roots(Err("expected a table".to_string())).is_empty());
}

#[test]
fn unfit_roots_are_skipped_alone() {
    let mut context = context();
    load(&mut context, "/srv/old");
    let found = |exists, root: &str| RootFacts {
        exists,
        is_dir: exists,
        canonical: Ok(root.to_string()),
    };
    let listed = vec![
        (found(true, "/srv/app"), Ok(())),
        (found(false, "/srv/gone"), Ok(())),
        (found(true, "/srv/dead"), Err("no server".to_string())),
        (found(true, "/srv/lib"), Ok(())),
    ];
    for (facts, started) in listed {
        if let Some(project) = load_project(facts) {
            let _ = context.add_project(project, started);
        }
    }
    let mut roots = context.project_roots();
    roots.sort();
    assert_eq!(roots, vec!["/srv/app", "/srv/lib", "/srv/old"]);
}

#[test]
fn unfit_roots_are_passed_over() {
    let facts = |exists, is_dir, canonical| RootFacts { exists, is_dir, canonical };
    assert!(load_project(facts(false, false, Ok("/a".to_string()))).is_none());
    assert!(load_project(facts(true, false, Ok("/a".to_string()))).is_none());
    assert!(load_project(facts(true, true, Err("e".to_string()))).is_none());
}

#[test]
fn configuration_files_are_looked_at() {
    assert!(matches!(context().load_config(ConfigFile::Missing), ConfigLoad::Skip));
    assert!(matches!(context().load_config(ConfigFile::Content(" \n\t".to_string())), ConfigLoad::Skip));
    let unreadable = context().load_config(ConfigFile::Unreadable("denied".to_string()));
    assert!(matches!(unreadable, ConfigLoad::Fail(e) if e == "denied"));
    let text = context().load_config(ConfigFile::Content("[projects]".to_string()));
    assert!(matches!(text, ConfigLoad::Parse(t) if t == "[projects]"));
}
