//! The progress of indexing, as the server shows it while it runs.
use crate::display::{beautify_path, shown_path};
use crate::notification::{
    notification_text, path_of_notification, ContextNotification, IndexingProgress, IndexingStage,
    LspNotification,
};
use crate::paths::{opt_str, quote_text, quoted_text};
use vstd::prelude::*;

verus! {

/// The time without activity after which the indexing counts as finished, in nanoseconds.
pub const IDLE_NANOS: u128 = 2_000_000_000;

/// How far the indexing has come. Times are in nanoseconds, from any point on.
#[derive(Clone, Copy, Debug)]
pub struct IndexingTracker {
    pub is_indexing: bool,
    pub finished_sent: bool,
    pub any_stage_completed: bool,
    pub last_activity: u128,
}

/// How a message is shown.
#[derive(Clone, Debug)]
pub enum Display {
    /// On the current line, which the next message takes.
    Transient(String),
    /// On a line of its own.
    Line(String),
    /// On a line of its own, in the place of what stands on the current line.
    Replacing(String),
}

/// A stage in its form for developers.
pub open spec fn stage_debug(stage: IndexingStage) -> Seq<char> {
    match stage {
        IndexingStage::Building => "Building"@,
        IndexingStage::CachePriming => "CachePriming"@,
        IndexingStage::Indexing => "Indexing"@,
        IndexingStage::Unknown(name) => "Unknown("@ + quoted_text(name@) + ")"@,
    }
}

/// The stage that has come to its end, as it is named.
pub open spec fn ended_stage(progress: Option<IndexingProgress>) -> Seq<char> {
    match progress {
        Some(progress) => stage_debug(progress.stage),
        None => "Unknown"@,
    }
}

/// The progress is that of a known stage.
pub open spec fn is_known_stage(progress: Option<IndexingProgress>) -> bool {
    progress matches Some(progress) && progress.stage !is Unknown
}

/// The progress is that of cache priming.
pub open spec fn is_cache_priming(progress: Option<IndexingProgress>) -> bool {
    progress matches Some(progress) && progress.stage is CachePriming
}

/// The tracker after a message. A message that indexing goes on counts as activity, and so does
/// the end of a known stage, which ends the indexing; other messages change nothing.
pub open spec fn after_notification(
    tracker: IndexingTracker,
    notification: ContextNotification,
    now: u128,
) -> IndexingTracker {
    match notification {
        ContextNotification::Lsp(
            LspNotification::Indexing { is_indexing, progress, .. },
        ) => if is_indexing {
            IndexingTracker { is_indexing: true, last_activity: now, ..tracker }
        } else if is_known_stage(progress) {
            IndexingTracker {
                is_indexing: false,
                any_stage_completed: true,
                last_activity: now,
                ..tracker
            }
        } else {
            tracker
        },
        _ => tracker,
    }
}

/// A message with the path that it is about.
pub open spec fn labelled(
    notification: ContextNotification,
    current: Option<Seq<char>>,
) -> Seq<char> {
    "["@ + shown_path(path_of_notification(notification), current) + "] "@ + notification_text(
        notification,
    )
}

/// How a message is shown: cache priming on the current line, the end of a stage in the place of
/// what stands there, and everything else on a line of its own.
pub open spec fn shows(
    notification: ContextNotification,
    current: Option<Seq<char>>,
    display: Display,
) -> bool {
    match notification {
        ContextNotification::Lsp(
            LspNotification::Indexing { is_indexing, progress, project },
        ) => if !is_indexing {
            display matches Display::Replacing(text) && text@ == "["@ + shown_path(
                project@,
                current,
            ) + "] ✅ "@ + ended_stage(progress) + " Stage: Completed"@
        } else if is_cache_priming(progress) {
            display matches Display::Transient(text) && text@ == labelled(notification, current)
        } else {
            display matches Display::Line(text) && text@ == labelled(notification, current)
        },
        _ => display matches Display::Line(text) && text@ == labelled(notification, current),
    }
}

/// The indexing counts as finished: a stage has ended, none is going on, nothing has happened for
/// a while, and it has not been said before.
pub open spec fn is_finished(tracker: IndexingTracker, now: u128) -> bool {
    &&& tracker.any_stage_completed
    &&& !tracker.finished_sent
    &&& !tracker.is_indexing
    &&& now - tracker.last_activity >= IDLE_NANOS
}

/// What comes of a look at the clock.
pub open spec fn ticks(
    before: IndexingTracker,
    after: IndexingTracker,
    now: u128,
    said: Option<String>,
) -> bool {
    &&& said is Some <==> is_finished(before, now)
    &&& said matches Some(text) ==> text@ == "✅ LSP Indexing: Finished"@
    &&& after == (IndexingTracker {
        finished_sent: before.finished_sent || is_finished(before, now),
        ..before
    })
}

fn name_ended_stage(progress: &Option<IndexingProgress>) -> (res: String)
    ensures
        res@ == ended_stage(*progress),
{
    match progress {
        Some(progress) => match &progress.stage {
            IndexingStage::Building => "Building".to_owned(),
            IndexingStage::CachePriming => "CachePriming".to_owned(),
            IndexingStage::Indexing => "Indexing".to_owned(),
            IndexingStage::Unknown(name) => {
                let quoted = quote_text(name.as_str());
                "Unknown(".to_owned().concat(quoted.as_str()).concat(")")
            },
        },
        None => "Unknown".to_owned(),
    }
}

fn known_stage(progress: &Option<IndexingProgress>) -> (res: bool)
    ensures
        res == is_known_stage(*progress),
{
    match progress {
        Some(progress) => match &progress.stage {
            IndexingStage::Unknown(_) => false,
            _ => true,
        },
        None => false,
    }
}

fn cache_priming(progress: &Option<IndexingProgress>) -> (res: bool)
    ensures
        res == is_cache_priming(*progress),
{
    match progress {
        Some(progress) => match &progress.stage {
            IndexingStage::CachePriming => true,
            _ => false,
        },
        None => false,
    }
}

fn label(notification: &ContextNotification, current_dir: Option<&str>) -> (res: String)
    ensures
        res@ == labelled(
            *notification,
            opt_str(current_dir),
        ),
{
    let path = notification.notification_path();
    let shown = beautify_path(path.as_str(), current_dir);
    let text = notification.description();
    "[".to_owned().concat(shown.as_str()).concat("] ").concat(text.as_str())
}

impl IndexingTracker {
    /// A tracker at the start of the server.
    pub fn new(now: u128) -> (res: IndexingTracker)
        ensures
            res == (IndexingTracker {
                is_indexing: false,
                finished_sent: false,
                any_stage_completed: false,
                last_activity: now,
            }),
    {
        IndexingTracker {
            is_indexing: false,
            finished_sent: false,
            any_stage_completed: false,
            last_activity: now,
        }
    }

    /// Takes note of a message, and says how it is shown. `current_dir` is the current directory,
    /// if it is known.
    pub fn on_notification(
        &mut self,
        notification: &ContextNotification,
        now: u128,
        current_dir: Option<&str>,
    ) -> (res: Display)
        ensures
            *final(self) == after_notification(*old(self), *notification, now),
            shows(
                *notification,
                opt_str(current_dir),
                res,
            ),
    {
        match notification {
            ContextNotification::Lsp(
                LspNotification::Indexing { is_indexing, progress, project },
            ) => {
                if *is_indexing {
                    self.is_indexing = true;
                    self.last_activity = now;
                    let text = label(notification, current_dir);
                    if cache_priming(progress) {
                        Display::Transient(text)
                    } else {
                        Display::Line(text)
                    }
                } else {
                    if known_stage(progress) {
                        self.is_indexing = false;
                        self.any_stage_completed = true;
                        self.last_activity = now;
                    }
                    let shown = beautify_path(project.as_str(), current_dir);
                    let stage = name_ended_stage(progress);
                    Display::Replacing(
                        "[".to_owned().concat(shown.as_str()).concat("] ✅ ").concat(
                            stage.as_str(),
                        ).concat(" Stage: Completed"),
                    )
                }
            },
            _ => Display::Line(label(notification, current_dir)),
        }
    }

    /// Looks whether the indexing has finished, and says so once.
    pub fn on_tick(&mut self, now: u128) -> (res: Option<String>)
        ensures
            ticks(*old(self), *final(self), now, res),
    {
        if self.any_stage_completed && !self.finished_sent && !self.is_indexing && now
            >= self.last_activity && now - self.last_activity >= IDLE_NANOS {
            self.finished_sent = true;
            Some("✅ LSP Indexing: Finished".to_owned())
        } else {
            None
        }
    }
}

/// What happens to a tracker: a message or a look at the clock, each at a time.
pub enum TrackerEvent {
    Notification(ContextNotification, u128),
    Tick(u128),
}

/// The tracker after an event.
pub open spec fn after_event(tracker: IndexingTracker, event: TrackerEvent) -> IndexingTracker {
    match event {
        TrackerEvent::Notification(notification, now) => after_notification(tracker, notification, now),
        TrackerEvent::Tick(now) => IndexingTracker {
            finished_sent: tracker.finished_sent || is_finished(tracker, now),
            ..tracker
        },
    }
}

/// The tracker after events, one after the other.
pub open spec fn after_events(
    tracker: IndexingTracker,
    events: Seq<TrackerEvent>,
) -> IndexingTracker
    decreases events.len(),
{
    if events.len() == 0 {
        tracker
    } else {
        after_event(after_events(tracker, events.drop_last()), events.last())
    }
}

/// How often it is said, over some events, that the indexing has finished.
pub open spec fn times_finished(tracker: IndexingTracker, events: Seq<TrackerEvent>) -> nat
    decreases events.len(),
{
    if events.len() == 0 {
        0
    } else {
        let before = after_events(tracker, events.drop_last());
        let said = match events.last() {
            TrackerEvent::Tick(now) => is_finished(before, now),
            _ => false,
        };
        times_finished(tracker, events.drop_last()) + if said {
            1nat
        } else {
            0nat
        }
    }
}

/// The event ends a known stage of the indexing.
pub open spec fn ends_stage(event: TrackerEvent) -> bool {
    match event {
        TrackerEvent::Notification(
            ContextNotification::Lsp(LspNotification::Indexing { is_indexing, progress, .. }),
            _,
        ) => !is_indexing && is_known_stage(progress),
        _ => false,
    }
}

/// However the events of a run come, it is said at most once that the indexing has finished, and
/// never unless a known stage has ended.
pub proof fn law_finished_is_said_once(start: u128, events: Seq<TrackerEvent>)
    ensures
        ({
            let tracker = IndexingTracker {
                is_indexing: false,
                finished_sent: false,
                any_stage_completed: false,
                last_activity: start,
            };
            &&& times_finished(tracker, events) <= 1
            &&& times_finished(tracker, events) == 1 ==> exists|i: int|
                0 <= i < events.len() && ends_stage(#[trigger] events[i])
        }),
{
    let tracker = IndexingTracker {
        is_indexing: false,
        finished_sent: false,
        any_stage_completed: false,
        last_activity: start,
    };
    lemma_times_finished(tracker, events);
}

proof fn lemma_times_finished(tracker: IndexingTracker, events: Seq<TrackerEvent>)
    requires
        !tracker.finished_sent,
        !tracker.any_stage_completed,
    ensures
        times_finished(tracker, events) == if after_events(tracker, events).finished_sent {
            1nat
        } else {
            0nat
        },
        after_events(tracker, events).finished_sent ==> after_events(
            tracker,
            events,
        ).any_stage_completed,
        after_events(tracker, events).any_stage_completed ==> exists|i: int|
            0 <= i < events.len() && ends_stage(#[trigger] events[i]),
    decreases events.len(),
{
    if events.len() > 0 {
        let rest = events.drop_last();
        lemma_times_finished(tracker, rest);
        if after_events(tracker, events).any_stage_completed {
            if after_events(tracker, rest).any_stage_completed {
                let i = choose|i: int| 0 <= i < rest.len() && ends_stage(#[trigger] rest[i]);
                assert(events[i] == rest[i]);
            } else {
                assert(ends_stage(events[events.len() - 1]));
            }
        }
    }
}

/// It is said that the indexing has finished at the first look two seconds or more after a known
/// stage has ended, unless it has been said or indexing goes on again, and then only. Looking
/// changes nothing but that it has been said.
pub proof fn law_finished_is_said_two_seconds_after_a_stage(
    before: IndexingTracker,
    project: String,
    progress: IndexingProgress,
    ended: u128,
    now: u128,
    after: IndexingTracker,
    said: Option<String>,
)
    requires
        progress.stage !is Unknown,
        ticks(
            after_notification(
                before,
                ContextNotification::Lsp(
                    LspNotification::Indexing {
                        project,
                        is_indexing: false,
                        progress: Some(progress),
                    },
                ),
                ended,
            ),
            after,
            now,
            said,
        ),
    ensures
        said is Some <==> !before.finished_sent && now >= ended + 2_000_000_000,
        said matches Some(text) ==> text@ == "✅ LSP Indexing: Finished"@,
        after.finished_sent <==> before.finished_sent || said is Some,
        !after.is_indexing,
        after.any_stage_completed,
        after.last_activity == ended,
{
}

/// A message that indexing goes on puts off what is said of its end: no look at the clock says that
/// it has finished, however long it takes, until a known stage ends.
pub proof fn law_indexing_is_not_finished_while_it_goes_on(
    before: IndexingTracker,
    project: String,
    progress: Option<IndexingProgress>,
    started: u128,
    now: u128,
    after: IndexingTracker,
    said: Option<String>,
)
    requires
        ticks(
            after_notification(
                before,
                ContextNotification::Lsp(
                    LspNotification::Indexing { project, is_indexing: true, progress },
                ),
                started,
            ),
            after,
            now,
            said,
        ),
    ensures
        said is None,
        after.is_indexing,
        after.last_activity == started,
        after.finished_sent == before.finished_sent,
        after.any_stage_completed == before.any_stage_completed,
{
}

/// Messages that are not about indexing, and the end of a stage that is not known, leave the tracker
/// as it is.
pub proof fn law_other_messages_are_no_activity(
    before: IndexingTracker,
    notification: ContextNotification,
    now: u128,
)
    requires
        notification matches ContextNotification::Lsp(
            LspNotification::Indexing { is_indexing, progress, .. },
        ) ==> !is_indexing && (progress is None || progress->0.stage is Unknown),
    ensures
        after_notification(before, notification, now) == before,
{
}

/// A message on the current line is one on cache priming that goes on, and the end of a stage takes
/// the place of what stands there. Every other message has a line of its own. Each shows the path
/// that it is about.
pub proof fn law_only_cache_priming_is_transient(
    notification: ContextNotification,
    current: Option<Seq<char>>,
    display: Display,
)
    requires
        shows(notification, current, display),
    ensures
        display is Transient <==> (notification matches ContextNotification::Lsp(
            LspNotification::Indexing { is_indexing, progress, .. },
        ) && is_indexing && progress is Some && progress->0.stage is CachePriming),
        display is Replacing <==> (notification matches ContextNotification::Lsp(
            LspNotification::Indexing { is_indexing, .. },
        ) && !is_indexing),
        display matches Display::Transient(text) ==> text@ == "["@ + shown_path(
            path_of_notification(notification),
            current,
        ) + "] "@ + notification_text(notification),
        display matches Display::Line(text) ==> text@ == "["@ + shown_path(
            path_of_notification(notification),
            current,
        ) + "] "@ + notification_text(notification),
        display matches Display::Replacing(text) ==> {
            let stage = match notification->Lsp_0->progress {
                Some(progress) => match progress.stage {
                    IndexingStage::Building => "Building"@,
                    IndexingStage::CachePriming => "CachePriming"@,
                    IndexingStage::Indexing => "Indexing"@,
                    IndexingStage::Unknown(name) => "Unknown("@ + quoted_text(name@) + ")"@,
                },
                None => "Unknown"@,
            };
            text@ == "["@ + shown_path(path_of_notification(notification), current) + "] ✅ "@
                + stage + " Stage: Completed"@
        },
{
}

}
