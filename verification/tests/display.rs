use rust_devtools_mcp::display::beautify_path;
use rust_devtools_mcp::notification::{
    ContextNotification, IndexingProgress, IndexingStage, LspNotification, McpNotification,
    ProjectDescription,
};
use rust_devtools_mcp::progress::{Display, IndexingTracker, IDLE_NANOS};

#[test]
fn short_path_is_shown_whole() {
    assert_eq!(beautify_path("/srv/app", None), "📁 /srv/app");
    assert_eq!(beautify_path("a\\b", None), "📁 a/b");
    assert_eq!(beautify_path("\\\\?\\C:\\x", None), "📁 C:/x");
    assert_eq!(beautify_path("/", None), "📁 /");
}

#[test]
fn long_path_is_shown_by_two_names() {
    let long = "/home/someone/with/a/rather/deep/directory/tree/group/app";
    assert_eq!(beautify_path(long, None), "📁 group/app");
    assert_eq!(beautify_path(long, Some("/home/someone")), "📁 group/app");
    let name = "x".repeat(60);
    assert_eq!(beautify_path(&name, None), format!("📁 {}", name));
}

#[test]
fn path_under_the_current_directory() {
    assert_eq!(beautify_path("/srv/app/src", Some("/srv/app")), "📁 ./src");
    assert_eq!(beautify_path("/srv/app", Some("/srv/app")), "📁 /srv/app");
    assert_eq!(beautify_path("/srv/apple", Some("/srv/app")), "📁 /srv/apple");
}

fn progress(stage: IndexingStage) -> IndexingProgress {
    IndexingProgress {
        stage,
        current_count: None,
        total_count: None,
        counted_percentage: 0,
        percentage: None,
        current_crate: None,
    }
}

fn indexing(is_indexing: bool, progress: Option<IndexingProgress>) -> ContextNotification {
    let project = "/srv/app".to_string();
    ContextNotification::Lsp(LspNotification::Indexing { project, is_indexing, progress })
}

#[test]
fn progress_is_described() {
    let counted = IndexingProgress {
        current_count: Some(3),
        total_count: Some(12),
        counted_percentage: 25,
        percentage: Some(80),
        current_crate: Some("serde".to_string()),
        ..progress(IndexingStage::Indexing)
    };
    assert_eq!(indexing(true, Some(counted)).description(), "📚 Indexing [3/12] 25% 📦 serde");
    let reported = IndexingProgress {
        current_count: Some(3),
        percentage: Some(80),
        ..progress(IndexingStage::CachePriming)
    };
    assert_eq!(indexing(true, Some(reported)).description(), "⚡ Cache Priming 80%");
    let unknown = progress(IndexingStage::Unknown("Roots".to_string()));
    assert_eq!(indexing(true, Some(unknown)).description(), "⚙️ Roots");
    assert_eq!(indexing(true, Some(progress(IndexingStage::Building))).description(), "🔨 Building");
    assert_eq!(indexing(true, None).description(), "🔄 LSP Indexing: Started");
    assert_eq!(indexing(false, None).description(), "✅ LSP Indexing: Finished");
}

#[test]
fn notifications_are_described() {
    let project = "/srv/\"app\"".to_string();
    let updated = McpNotification::CodeActionsUpdated { project: project.clone(), action_count: 2 };
    let updated = ContextNotification::Mcp(updated);
    assert_eq!(
        updated.description(),
        "Code actions updated for project \"/srv/\\\"app\\\"\": 2 actions available"
    );
    assert_eq!(updated.notification_path(), project);
    let response = ContextNotification::Mcp(McpNotification::Response {
        content: "Ok".to_string(),
        project: project.clone(),
    });
    assert_eq!(response.description(), "MCP Response: Ok");
    assert_eq!(response.notification_path(), project);
    let added = ContextNotification::ProjectAdded("/a".to_string());
    assert_eq!((added.description(), added.notification_path()), ("Project Added".to_string(), "/a".to_string()));
    let removed = ContextNotification::ProjectRemoved("/b".to_string());
    assert_eq!((removed.description(), removed.notification_path()), ("Project Removed".to_string(), "/b".to_string()));
    assert_eq!(indexing(true, None).notification_path(), "/srv/app");
}

#[test]
fn projects_are_summed_up() {
    let project = |is_indexing_lsp| ProjectDescription {
        root: "/a".to_string(),
        name: "a".to_string(),
        is_indexing_lsp,
    };
    let summary = |projects| ContextNotification::ProjectDescriptions(projects);
    assert_eq!(summary(vec![]).description(), "No projects loaded");
    assert_eq!(summary(vec![project(false)]).description(), "Projects: 1 total, 🚀 Ready: 1");
    assert_eq!(
        summary(vec![project(false), project(true), project(true)]).description(),
        "Projects: 3 total, 🚀 Ready: 1, 🔄 Indexing: 2"
    );
    assert_eq!(summary(vec![]).notification_path(), "project_descriptions");
}

#[test]
fn finished_is_said_once() {
    let mut tracker = IndexingTracker::new(0);
    assert_eq!(tracker.on_tick(10 * IDLE_NANOS), None);
    tracker.on_notification(&indexing(true, None), 5, None);
    assert!(tracker.is_indexing);
    let end = indexing(false, Some(progress(IndexingStage::Indexing)));
    tracker.on_notification(&end, 100, None);
    assert!(!tracker.is_indexing && tracker.any_stage_completed);
    assert_eq!(tracker.on_tick(100 + IDLE_NANOS - 1), None);
    assert_eq!(tracker.on_tick(99), None);
    assert_eq!(tracker.on_tick(100 + IDLE_NANOS), Some("✅ LSP Indexing: Finished".to_string()));
    assert_eq!(tracker.on_tick(100 + 2 * IDLE_NANOS), None);
}

#[test]
fn unknown_stage_does_not_finish() {
    let mut tracker = IndexingTracker::new(0);
    let end = indexing(false, Some(progress(IndexingStage::Unknown("a\"b".to_string()))));
    match tracker.on_notification(&end, 1, None) {
        Display::Replacing(text) => {
            assert_eq!(text, "[📁 /srv/app] ✅ Unknown(\"a\\\"b\") Stage: Completed")
        }
        other => panic!("{:?}", other),
    }
    tracker.on_notification(&indexing(false, None), 1, None);
    assert_eq!(tracker.on_tick(10 * IDLE_NANOS), None);
}

#[test]
fn messages_are_shown() {
    let mut tracker = IndexingTracker::new(0);
    let priming = indexing(true, Some(progress(IndexingStage::CachePriming)));
    match tracker.on_notification(&priming, 1, Some("/srv")) {
        Display::Transient(text) => assert_eq!(text, "[📁 ./app] ⚡ Cache Priming"),
        other => panic!("{:?}", other),
    }
    match tracker.on_notification(&indexing(true, None), 1, None) {
        Display::Line(text) => assert_eq!(text, "[📁 /srv/app] 🔄 LSP Indexing: Started"),
        other => panic!("{:?}", other),
    }
    let end = indexing(false, Some(progress(IndexingStage::CachePriming)));
    match tracker.on_notification(&end, 1, None) {
        Display::Replacing(text) => {
            assert_eq!(text, "[📁 /srv/app] ✅ CachePriming Stage: Completed")
        }
        other => panic!("{:?}", other),
    }
    match tracker.on_notification(&ContextNotification::ProjectAdded("/a".to_string()), 1, None) {
        Display::Line(text) => assert_eq!(text, "[📁 /a] Project Added"),
        other => panic!("{:?}", other),
    }
}
