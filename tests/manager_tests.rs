use drop_client::manager::{DownloadManagerBuilder, DownloadManagerSignal, ManagerAction};
use drop_client::types::{ApplicationDownloadError, DownloadManagerStatus, DownloadType, DownloadableMetadata};

fn key(id: &str) -> DownloadableMetadata {
    DownloadableMetadata::new(id.to_string(), Some("v1".to_string()), DownloadType::Game)
}

fn ids(m: &DownloadManagerBuilder) -> Vec<String> {
    m.queue().into_iter().map(|k| k.id).collect()
}

fn names(actions: &[ManagerAction]) -> Vec<String> {
    actions
        .iter()
        .map(|a| match a {
            ManagerAction::OnQueued(k) => format!("queued {}", k.id),
            ManagerAction::StartDownload(k) => format!("start {}", k.id),
            ManagerAction::StopWorker => "stop worker".to_string(),
            ManagerAction::StopAndWait => "stop".to_string(),
            ManagerAction::OnCancelled(k) => format!("cancelled {}", k.id),
            ManagerAction::OnError(k, _) => format!("error {}", k.id),
            ManagerAction::DropAgent(k) => format!("drop {}", k.id),
            ManagerAction::EmitQueue => "emit queue".to_string(),
            ManagerAction::EmitStats(a, b) => format!("emit stats {a} {b}"),
            ManagerAction::PostGo => "go".to_string(),
            ManagerAction::Terminate => "terminate".to_string(),
        })
        .collect()
}

#[test]
fn queue_then_go_starts_head() {
    let mut m = DownloadManagerBuilder::new();
    assert_eq!(m.status(), DownloadManagerStatus::Empty);
    let a = m.handle_signal(DownloadManagerSignal::Queue(key("A")));
    assert_eq!(names(&a), vec!["queued A", "emit queue"]);
    let a = m.handle_signal(DownloadManagerSignal::Go);
    assert_eq!(names(&a), vec!["start A"]);
    assert_eq!(m.status(), DownloadManagerStatus::Downloading);
    assert!(m.handle_signal(DownloadManagerSignal::Go).is_empty());
}

#[test]
fn duplicate_queue_is_dropped() {
    let mut m = DownloadManagerBuilder::new();
    m.handle_signal(DownloadManagerSignal::Queue(key("A")));
    assert!(m.handle_signal(DownloadManagerSignal::Queue(key("A"))).is_empty());
    assert_eq!(ids(&m), vec!["A"]);
    let other_version = DownloadableMetadata::new("A".to_string(), Some("v2".to_string()), DownloadType::Game);
    m.handle_signal(DownloadManagerSignal::Queue(other_version));
    assert_eq!(m.queue().len(), 2);
}

#[test]
fn completed_pops_head_and_posts_go() {
    let mut m = DownloadManagerBuilder::new();
    m.handle_signal(DownloadManagerSignal::Queue(key("A")));
    m.handle_signal(DownloadManagerSignal::Queue(key("B")));
    m.handle_signal(DownloadManagerSignal::Go);
    let a = m.handle_signal(DownloadManagerSignal::Completed(key("A")));
    assert_eq!(names(&a), vec!["drop A", "emit queue", "go"]);
    assert_eq!(ids(&m), vec!["B"]);
    assert_eq!(names(&m.handle_signal(DownloadManagerSignal::Go)), vec!["start B"]);
    let a = m.handle_signal(DownloadManagerSignal::Completed(key("A")));
    assert_eq!(names(&a), vec!["emit queue", "go"]);
    assert_eq!(ids(&m), vec!["B"]);
}

#[test]
fn cancel_mid_queue_then_cancel_running() {
    let mut m = DownloadManagerBuilder::new();
    for id in ["A", "B", "C"] {
        m.handle_signal(DownloadManagerSignal::Queue(key(id)));
    }
    m.handle_signal(DownloadManagerSignal::Go);
    let a = m.handle_signal(DownloadManagerSignal::Cancel(key("B")));
    assert_eq!(names(&a), vec!["cancelled B", "drop B", "go", "emit queue"]);
    assert_eq!(ids(&m), vec!["A", "C"]);
    assert!(m.handle_signal(DownloadManagerSignal::Go).is_empty());
    let a = m.handle_signal(DownloadManagerSignal::Cancel(key("A")));
    assert_eq!(names(&a), vec!["stop", "cancelled A", "drop A", "go", "emit queue"]);
    assert_eq!(ids(&m), vec!["C"]);
    assert_eq!(names(&m.handle_signal(DownloadManagerSignal::Go)), vec!["start C"]);
}

#[test]
fn enqueue_cancel_enqueue_restores_queue() {
    let mut first = DownloadManagerBuilder::new();
    first.handle_signal(DownloadManagerSignal::Queue(key("X")));
    first.handle_signal(DownloadManagerSignal::Queue(key("A")));
    let mut m = DownloadManagerBuilder::new();
    m.handle_signal(DownloadManagerSignal::Queue(key("X")));
    m.handle_signal(DownloadManagerSignal::Queue(key("A")));
    m.handle_signal(DownloadManagerSignal::Cancel(key("A")));
    assert_eq!(ids(&m), vec!["X"]);
    m.handle_signal(DownloadManagerSignal::Queue(key("A")));
    assert_eq!(ids(&m), ids(&first));
}

#[test]
fn stop_pauses_and_go_resumes() {
    let mut m = DownloadManagerBuilder::new();
    m.handle_signal(DownloadManagerSignal::Queue(key("A")));
    m.handle_signal(DownloadManagerSignal::Go);
    assert_eq!(names(&m.handle_signal(DownloadManagerSignal::Stop)), vec!["stop worker", "queued A"]);
    assert_eq!(m.status(), DownloadManagerStatus::Paused);
    assert_eq!(ids(&m), vec!["A"]);
    assert!(m.handle_signal(DownloadManagerSignal::Stop).is_empty());
    assert_eq!(names(&m.handle_signal(DownloadManagerSignal::Go)), vec!["start A"]);
}

#[test]
fn error_pops_head_and_sets_error_state() {
    let mut m = DownloadManagerBuilder::new();
    m.handle_signal(DownloadManagerSignal::Queue(key("A")));
    m.handle_signal(DownloadManagerSignal::Queue(key("B")));
    m.handle_signal(DownloadManagerSignal::Go);
    let a = m.handle_signal(DownloadManagerSignal::Error(ApplicationDownloadError::Lock));
    assert_eq!(names(&a), vec!["error A", "stop", "drop A", "emit queue"]);
    assert!(matches!(a[0], ManagerAction::OnError(_, ApplicationDownloadError::Lock)));
    assert_eq!(m.status(), DownloadManagerStatus::Error);
    assert_eq!(ids(&m), vec!["B"]);
}

#[test]
fn ui_signals_and_finish() {
    let mut m = DownloadManagerBuilder::new();
    assert_eq!(names(&m.handle_signal(DownloadManagerSignal::UpdateUIQueue)), vec!["emit queue"]);
    assert_eq!(names(&m.handle_signal(DownloadManagerSignal::UpdateUIStats(5, 7))), vec!["emit stats 5 7"]);
    assert!(!m.is_finished());
    assert_eq!(names(&m.handle_signal(DownloadManagerSignal::Finish)), vec!["stop", "terminate"]);
    assert!(m.is_finished());
}

#[test]
fn rearrange_moves_entries_but_not_running_head() {
    let mut m = DownloadManagerBuilder::new();
    for id in ["A", "B", "C"] {
        m.handle_signal(DownloadManagerSignal::Queue(key(id)));
    }
    assert!(m.rearrange(2, 0));
    assert_eq!(ids(&m), vec!["C", "A", "B"]);
    m.handle_signal(DownloadManagerSignal::Go);
    assert!(!m.rearrange(1, 0));
    assert!(m.rearrange(1, 2));
    assert_eq!(ids(&m), vec!["C", "B", "A"]);
    assert!(!m.rearrange(5, 1));
}

#[test]
fn go_starts_only_a_queued_head() {
    let mut m = DownloadManagerBuilder::new();
    assert!(m.handle_signal(DownloadManagerSignal::Go).is_empty());
    m.handle_signal(DownloadManagerSignal::Queue(key("A")));
    m.handle_signal(DownloadManagerSignal::Queue(key("B")));
    assert_eq!(names(&m.handle_signal(DownloadManagerSignal::Go)), vec!["start A"]);
    assert!(m.handle_signal(DownloadManagerSignal::Go).is_empty());
    assert_eq!(m.status(), DownloadManagerStatus::Downloading);
    m.handle_signal(DownloadManagerSignal::Stop);
    assert_eq!(m.status(), DownloadManagerStatus::Paused);
    assert!(m.rearrange(1, 0));
    assert_eq!(ids(&m), vec!["B", "A"]);
    assert_eq!(names(&m.handle_signal(DownloadManagerSignal::Go)), vec!["start B"]);
}
