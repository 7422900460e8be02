use rust_devtools_mcp::paths::expand_path;
use rust_devtools_mcp::project::{parse_transport, Project, RustAnalyzerConfig, TransportType, UriError};

#[test]
fn tilde_at_the_start_is_expanded() {
    let home = Some("/home/me");
    assert_eq!(expand_path("~", home), "/home/me");
    assert_eq!(expand_path("~/project", home), "/home/me/project");
}

#[test]
fn tilde_stays_without_a_home_directory() {
    assert_eq!(expand_path("~", None), "~");
    assert_eq!(expand_path("~/project", None), "~/project");
}

#[test]
fn tilde_elsewhere_is_kept() {
    let home = Some("/home/me");
    assert_eq!(expand_path("/srv/~/project", home), "/srv/~/project");
    assert_eq!(expand_path("~someone/project", home), "~someone/project");
    assert_eq!(expand_path("", home), "");
}

#[test]
fn new_project_has_only_a_root() {
    let project = Project::new("/srv/app".to_string());
    assert_eq!(project.root(), "/srv/app");
    assert!(project.ignore_crates().is_empty());
    assert!(project.rust_analyzer().is_none());
}

#[test]
fn project_keeps_its_settings() {
    let project = Project {
        root: "/srv/app".to_string(),
        ignore_crates: vec!["a".to_string(), "b".to_string()],
        rust_analyzer: Some(RustAnalyzerConfig { text: "checkOnSave = true".to_string() }),
    };
    assert_eq!(project.ignore_crates(), &vec!["a".to_string(), "b".to_string()]);
    assert_eq!(project.rust_analyzer().unwrap().text, "checkOnSave = true");
    let copy = project.copy();
    assert_eq!(copy.root, project.root);
    assert_eq!(copy.ignore_crates, project.ignore_crates);
    assert_eq!(copy.rust_analyzer.unwrap().text, "checkOnSave = true");
}

#[test]
fn project_uri() {
    let project = Project::new("/srv/my app".to_string());
    assert_eq!(project.uri().unwrap(), "file:///srv/my%20app");
    assert_eq!(project.file_uri("src/lib.rs").unwrap(), "file:///srv/my%20app/src/lib.rs");
    assert_eq!(project.file_uri("/etc/x").unwrap(), "file:///etc/x");
}

#[test]
fn relative_root_has_no_uri() {
    let project = Project::new("srv/app".to_string());
    let root = project.uri().unwrap_err();
    assert_eq!(root, UriError::ProjectRoot);
    assert_eq!(root.message(), "Failed to create project root URI");
    let file = project.file_uri("src/lib.rs").unwrap_err();
    assert_eq!(file, UriError::File);
    assert_eq!(file.message(), "Failed to create file URI");
}

#[test]
fn transports_are_parsed() {
    assert_eq!(parse_transport("stdio", "h", 1), Ok(TransportType::Stdio));
    let host = "127.0.0.1".to_string();
    assert_eq!(
        parse_transport("sse", "127.0.0.1", 4000),
        Ok(TransportType::Sse { host: host.clone(), port: 4000 })
    );
    assert_eq!(
        parse_transport("streamable-http", "127.0.0.1", 4001),
        Ok(TransportType::StreamableHttp { host, port: 4001 })
    );
    assert_eq!(
        parse_transport("SSE", "h", 1),
        Err("Invalid transport type: SSE".to_string())
    );
}
