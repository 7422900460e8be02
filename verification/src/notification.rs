//! What the parts of the server tell one another, and how it is shown.
use crate::paths::{quote_path, quoted_path};
use crate::text::{decimal, digits_of, join, joined, texts};
use vstd::prelude::*;

verus! {

/// A project as it is shown in a listing.
#[derive(Clone, Debug)]
pub struct ProjectDescription {
    pub root: String,
    pub name: String,
    pub is_indexing_lsp: bool,
}

/// A stage in the indexing of a project.
#[derive(Clone, Debug)]
pub enum IndexingStage {
    Building,
    CachePriming,
    Indexing,
    Unknown(String),
}

/// How far the indexing of a project has come.
#[derive(Clone, Debug)]
pub struct IndexingProgress {
    pub stage: IndexingStage,
    pub current_count: Option<u64>,
    pub total_count: Option<u64>,
    /// The share of the total that the current count makes, in whole percent.
    pub counted_percentage: u32,
    /// The share that was reported, in whole percent.
    pub percentage: Option<u32>,
    pub current_crate: Option<String>,
}

/// A message of the language server.
#[derive(Clone, Debug)]
pub enum LspNotification {
    Indexing { project: String, is_indexing: bool, progress: Option<IndexingProgress> },
}

/// A message of the tools.
#[derive(Clone, Debug)]
pub enum McpNotification {
    /// A tool has answered. The content is in its form for developers.
    Response { content: String, project: String },
    CodeActionsUpdated { project: String, action_count: usize },
}

/// A message on a change in the workspace.
#[derive(Clone, Debug)]
pub enum ContextNotification {
    Lsp(LspNotification),
    Mcp(McpNotification),
    ProjectAdded(String),
    ProjectRemoved(String),
    ProjectDescriptions(Vec<ProjectDescription>),
}

/// The path that a message is about.
pub open spec fn path_of_notification(notification: ContextNotification) -> Seq<char> {
    match notification {
        ContextNotification::Lsp(LspNotification::Indexing { project, .. }) => project@,
        ContextNotification::Mcp(McpNotification::Response { project, .. }) => project@,
        ContextNotification::Mcp(McpNotification::CodeActionsUpdated { project, .. }) => project@,
        ContextNotification::ProjectAdded(project) => project@,
        ContextNotification::ProjectRemoved(project) => project@,
        ContextNotification::ProjectDescriptions(_) => "project_descriptions"@,
    }
}

/// A stage with its icon.
pub open spec fn stage_label(stage: IndexingStage) -> Seq<char> {
    match stage {
        IndexingStage::Building => "🔨"@ + " "@ + "Building"@,
        IndexingStage::CachePriming => "⚡"@ + " "@ + "Cache Priming"@,
        IndexingStage::Indexing => "📚"@ + " "@ + "Indexing"@,
        IndexingStage::Unknown(name) => "⚙️"@ + " "@ + name@,
    }
}

/// How far a stage has come: by its counts where both are known, else by the share that was
/// reported, if one was.
pub open spec fn amount_parts(progress: IndexingProgress) -> Seq<Seq<char>> {
    match (progress.current_count, progress.total_count, progress.percentage) {
        (Some(current), Some(total), _) => seq![
            "["@ + digits_of(current as nat) + "/"@ + digits_of(total as nat) + "] "@ + digits_of(
                progress.counted_percentage as nat,
            ) + "%"@,
        ],
        (_, _, Some(percentage)) => seq![digits_of(percentage as nat) + "%"@],
        _ => seq![],
    }
}

/// The crate at which a stage is, if it is known.
pub open spec fn crate_parts(progress: IndexingProgress) -> Seq<Seq<char>> {
    match progress.current_crate {
        Some(name) => seq!["📦 "@ + name@],
        None => seq![],
    }
}

/// How far the indexing has come, as it is shown.
pub open spec fn progress_text(progress: IndexingProgress) -> Seq<char> {
    joined(
        seq![stage_label(progress.stage)] + amount_parts(progress) + crate_parts(progress),
        " "@,
    )
}

/// The number of projects that are being indexed.
pub open spec fn indexing_count(descriptions: Seq<ProjectDescription>) -> nat
    decreases descriptions.len(),
{
    if descriptions.len() == 0 {
        0
    } else {
        indexing_count(descriptions.drop_last()) + if descriptions.last().is_indexing_lsp {
            1nat
        } else {
            0nat
        }
    }
}

/// The projects that are loaded, as they are summed up.
pub open spec fn summary_text(descriptions: Seq<ProjectDescription>) -> Seq<char> {
    let indexing = indexing_count(descriptions);
    if descriptions.len() == 0 {
        "No projects loaded"@
    } else if indexing == 0 {
        joined(
            seq![
                "Projects: "@ + digits_of(descriptions.len()) + " total"@,
                "🚀 Ready: "@ + digits_of(descriptions.len()),
            ],
            ", "@,
        )
    } else {
        joined(
            seq![
                "Projects: "@ + digits_of(descriptions.len()) + " total"@,
                "🚀 Ready: "@ + digits_of((descriptions.len() - indexing) as nat),
                "🔄 Indexing: "@ + digits_of(indexing),
            ],
            ", "@,
        )
    }
}

/// How a message is shown.
pub open spec fn notification_text(notification: ContextNotification) -> Seq<char> {
    match notification {
        ContextNotification::Lsp(
            LspNotification::Indexing { is_indexing, progress, .. },
        ) => if !is_indexing {
            "✅ LSP Indexing: Finished"@
        } else {
            match progress {
                Some(progress) => progress_text(progress),
                None => "🔄 LSP Indexing: Started"@,
            }
        },
        ContextNotification::Mcp(McpNotification::Response { content, .. }) => "MCP Response: "@
            + content@,
        ContextNotification::Mcp(
            McpNotification::CodeActionsUpdated { project, action_count },
        ) => "Code actions updated for project "@ + quoted_path(project@) + ": "@ + digits_of(
            action_count as nat,
        ) + " actions available"@,
        ContextNotification::ProjectAdded(_) => "Project Added"@,
        ContextNotification::ProjectRemoved(_) => "Project Removed"@,
        ContextNotification::ProjectDescriptions(descriptions) => summary_text(descriptions@),
    }
}

fn label_stage(stage: &IndexingStage) -> (res: String)
    ensures
        res@ == stage_label(*stage),
{
    match stage {
        IndexingStage::Building => "🔨".to_owned().concat(" ").concat("Building"),
        IndexingStage::CachePriming => "⚡".to_owned().concat(" ").concat("Cache Priming"),
        IndexingStage::Indexing => "📚".to_owned().concat(" ").concat("Indexing"),
        IndexingStage::Unknown(name) => "⚙️".to_owned().concat(" ").concat(name.as_str()),
    }
}

fn describe_progress(progress: &IndexingProgress) -> (res: String)
    ensures
        res@ == progress_text(*progress),
{
    let mut parts: Vec<String> = Vec::new();
    parts.push(label_stage(&progress.stage));
    assert(texts(parts@) =~= seq![stage_label(progress.stage)]);
    let ghost first = texts(parts@);
    match (progress.current_count, progress.total_count) {
        (Some(current), Some(total)) => {
            let part = "[".to_owned().concat(decimal(current).as_str()).concat("/").concat(
                decimal(total).as_str(),
            ).concat("] ").concat(decimal(progress.counted_percentage as u64).as_str()).concat("%");
            parts.push(part);
        },
        _ => {
            if let Some(percentage) = progress.percentage {
                parts.push(decimal(percentage as u64).concat("%"));
            }
        },
    }
    assert(texts(parts@) =~= first + amount_parts(*progress));
    let ghost second = texts(parts@);
    if let Some(name) = &progress.current_crate {
        parts.push("📦 ".to_owned().concat(name.as_str()));
    }
    assert(texts(parts@) =~= second + crate_parts(*progress));
    join(&parts, " ")
}

fn count_indexing(descriptions: &Vec<ProjectDescription>) -> (res: usize)
    ensures
        res == indexing_count(descriptions@),
        res <= descriptions@.len(),
{
    let mut n: usize = 0;
    let mut i: usize = 0;
    while i < descriptions.len()
        invariant
            n <= i <= descriptions@.len(),
            n == indexing_count(descriptions@.take(i as int)),
        decreases descriptions@.len() - i,
    {
        assert(descriptions@.take(i + 1).drop_last() =~= descriptions@.take(i as int));
        if descriptions[i].is_indexing_lsp {
            n += 1;
        }
        i += 1;
    }
    assert(descriptions@.take(i as int) =~= descriptions@);
    n
}

fn describe_projects(descriptions: &Vec<ProjectDescription>) -> (res: String)
    ensures
        res@ == summary_text(descriptions@),
{
    if descriptions.len() == 0 {
        return "No projects loaded".to_owned();
    }
    let total: usize = descriptions.len();
    let indexing: usize = count_indexing(descriptions);
    let ready: usize = total - indexing;
    let mut parts: Vec<String> = Vec::new();
    parts.push("Projects: ".to_owned().concat(decimal(total as u64).as_str()).concat(" total"));
    parts.push("🚀 Ready: ".to_owned().concat(decimal(ready as u64).as_str()));
    let ghost first = "Projects: "@ + digits_of(total as nat) + " total"@;
    let ghost second = "🚀 Ready: "@ + digits_of(ready as nat);
    assert(texts(parts@) =~= seq![first, second]);
    if indexing > 0 {
        parts.push("🔄 Indexing: ".to_owned().concat(decimal(indexing as u64).as_str()));
        assert(texts(parts@) =~= seq![
            first,
            second,
            "🔄 Indexing: "@ + digits_of(indexing as nat),
        ]);
    }
    join(&parts, ", ")
}

impl ContextNotification {
    /// The path that the message is about.
    pub fn notification_path(&self) -> (res: String)
        ensures
            res@ == path_of_notification(*self),
    {
        match self {
            ContextNotification::Lsp(LspNotification::Indexing { project, .. }) => project.clone(),
            ContextNotification::Mcp(McpNotification::Response { project, .. }) => project.clone(),
            ContextNotification::Mcp(McpNotification::CodeActionsUpdated { project, .. }) =>
                project.clone(),
            ContextNotification::ProjectAdded(project) => project.clone(),
            ContextNotification::ProjectRemoved(project) => project.clone(),
            ContextNotification::ProjectDescriptions(_) => "project_descriptions".to_owned(),
        }
    }

    /// How the message is shown.
    pub fn description(&self) -> (res: String)
        ensures
            res@ == notification_text(*self),
    {
        match self {
            ContextNotification::Lsp(
                LspNotification::Indexing { is_indexing, progress, .. },
            ) => if *is_indexing {
                match progress {
                    Some(progress) => describe_progress(progress),
                    None => "🔄 LSP Indexing: Started".to_owned(),
                }
            } else {
                "✅ LSP Indexing: Finished".to_owned()
            },
            ContextNotification::Mcp(
                McpNotification::Response { content, .. },
            ) => "MCP Response: ".to_owned().concat(content.as_str()),
            ContextNotification::Mcp(
                McpNotification::CodeActionsUpdated { project, action_count },
            ) => {
                let quoted = quote_path(project.as_str());
                "Code actions updated for project ".to_owned().concat(quoted.as_str()).concat(
                    ": ",
                ).concat(decimal(*action_count as u64).as_str()).concat(" actions available")
            },
            ContextNotification::ProjectAdded(_) => "Project Added".to_owned(),
            ContextNotification::ProjectRemoved(_) => "Project Removed".to_owned(),
            ContextNotification::ProjectDescriptions(descriptions) => describe_projects(
                descriptions,
            ),
        }
    }
}

/// The projects that are counted as being indexed are those that say so.
pub proof fn law_indexing_projects_are_counted(descriptions: Seq<ProjectDescription>)
    ensures
        indexing_count(descriptions) == descriptions.filter(
            |project: ProjectDescription| project.is_indexing_lsp,
        ).len(),
        indexing_count(descriptions) <= descriptions.len(),
    decreases descriptions.len(),
{
    reveal(Seq::filter);
    if descriptions.len() > 0 {
        law_indexing_projects_are_counted(descriptions.drop_last());
    }
}

/// The summary gives the number of projects, that of the projects that are ready, and, unless it is
/// zero, that of the projects that are being indexed. The latter two make up the first.
pub proof fn law_summary_counts_the_projects(descriptions: Vec<ProjectDescription>)
    ensures
        ({
            let all = descriptions@.len();
            let busy = descriptions@.filter(
                |project: ProjectDescription| project.is_indexing_lsp,
            ).len();
            let shown = notification_text(ContextNotification::ProjectDescriptions(descriptions));
            &&& busy <= all
            &&& all == 0 ==> shown == "No projects loaded"@
            &&& all > 0 && busy == 0 ==> shown == "Projects: "@ + digits_of(all) + " total"@ + ", "@
                + ("🚀 Ready: "@ + digits_of(all))
            &&& all > 0 && busy > 0 ==> shown == "Projects: "@ + digits_of(all) + " total"@ + ", "@
                + ("🚀 Ready: "@ + digits_of((all - busy) as nat)) + ", "@ + ("🔄 Indexing: "@
                + digits_of(busy))
        }),
{
    law_indexing_projects_are_counted(descriptions@);
    let all = descriptions@.len();
    let busy = indexing_count(descriptions@);
    let one = "Projects: "@ + digits_of(all) + " total"@;
    let two = "🚀 Ready: "@ + digits_of((all - busy) as nat);
    let three = "🔄 Indexing: "@ + digits_of(busy);
    let pair = seq![one, two];
    let triple = seq![one, two, three];
    assert(pair.drop_last() =~= seq![one]);
    assert(triple.drop_last() =~= pair);
    assert(joined(seq![one], ", "@) == one);
    assert(joined(pair, ", "@) == one + ", "@ + two);
    assert(joined(triple, ", "@) == one + ", "@ + two + ", "@ + three);
}

/// A message is about the path that it names: the project of an indexing, of an answer or of code
/// actions, and the root of a project that was added or removed.
pub proof fn law_message_is_about_its_project(
    project: String,
    indexing: LspNotification,
    content: String,
    count: usize,
)
    requires
        indexing->project == project,
    ensures
        path_of_notification(ContextNotification::Lsp(indexing)) == project@,
        path_of_notification(
            ContextNotification::Mcp(McpNotification::Response { content, project }),
        ) == project@,
        path_of_notification(
            ContextNotification::Mcp(
                McpNotification::CodeActionsUpdated { project, action_count: count },
            ),
        ) == project@,
        path_of_notification(ContextNotification::ProjectAdded(project)) == project@,
        path_of_notification(ContextNotification::ProjectRemoved(project)) == project@,
        notification_text(
            ContextNotification::Mcp(McpNotification::Response { content, project }),
        ) == "MCP Response: "@ + content@,
        notification_text(
            ContextNotification::Mcp(
                McpNotification::CodeActionsUpdated { project, action_count: count },
            ),
        ) == "Code actions updated for project "@ + quoted_path(project@) + ": "@ + digits_of(
            count as nat,
        ) + " actions available"@,
        notification_text(ContextNotification::ProjectAdded(project)) == "Project Added"@,
        notification_text(ContextNotification::ProjectRemoved(project)) == "Project Removed"@,
{
}

/// The progress of an indexing is shown by its stage, then by how far it has come, then by the
/// crate at which it is. The counts go before the share that was reported; what is not known is
/// left out. An indexing that has ended is shown as finished whatever else is known of it.
pub proof fn law_progress_is_shown_by_what_is_known(
    project: String,
    progress: IndexingProgress,
    is_indexing: bool,
)
    ensures
        ({
            let shown = notification_text(
                ContextNotification::Lsp(
                    LspNotification::Indexing { project, is_indexing, progress: Some(progress) },
                ),
            );
            let stage = match progress.stage {
                IndexingStage::Building => "🔨"@ + " "@ + "Building"@,
                IndexingStage::CachePriming => "⚡"@ + " "@ + "Cache Priming"@,
                IndexingStage::Indexing => "📚"@ + " "@ + "Indexing"@,
                IndexingStage::Unknown(name) => "⚙️"@ + " "@ + name@,
            };
            let counted = if progress.current_count is Some && progress.total_count is Some {
                stage + " "@ + ("["@ + digits_of(progress.current_count->0 as nat) + "/"@
                    + digits_of(progress.total_count->0 as nat) + "] "@ + digits_of(
                    progress.counted_percentage as nat,
                ) + "%"@)
            } else if progress.percentage is Some {
                stage + " "@ + (digits_of(progress.percentage->0 as nat) + "%"@)
            } else {
                stage
            };
            &&& !is_indexing ==> shown == "✅ LSP Indexing: Finished"@
            &&& is_indexing && progress.current_crate is None ==> shown == counted
            &&& is_indexing && progress.current_crate is Some ==> shown == counted + " "@ + ("📦 "@
                + progress.current_crate->0@)
        }),
        notification_text(
            ContextNotification::Lsp(
                LspNotification::Indexing { project, is_indexing, progress: None },
            ),
        ) == if is_indexing {
            "🔄 LSP Indexing: Started"@
        } else {
            "✅ LSP Indexing: Finished"@
        },
{
    let stage = stage_label(progress.stage);
    let amount = amount_parts(progress);
    let own = crate_parts(progress);
    let parts = seq![stage] + amount + own;
    let head = seq![stage] + amount;
    assert(joined(seq![stage], " "@) == stage);
    if amount.len() == 0 {
        assert(head =~= seq![stage]);
    } else {
        assert(head.drop_last() =~= seq![stage]);
        assert(head.last() == amount[0]);
        assert(joined(head, " "@) == stage + " "@ + amount[0]);
    }
    if own.len() == 0 {
        assert(parts =~= head);
    } else {
        assert(parts.drop_last() =~= head);
        assert(parts.last() == own[0]);
        assert(joined(parts, " "@) == joined(head, " "@) + " "@ + own[0]);
    }
    assert(progress_text(progress) == joined(parts, " "@));
}

}
