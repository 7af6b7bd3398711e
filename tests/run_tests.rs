use drop_client::agent::{completion_status, run_next, worker_next, GameDownloadAgent, RunPhase, RunStep, WorkerAction};
use drop_client::planner::{ChunkData, ManifestEntry};
use drop_client::types::{
    ApplicationDownloadError, DownloadStatus, DownloadThreadControlFlag, GameDownloadStatus,
    RemoteAccessError,
};

fn manifest() -> Vec<ManifestEntry> {
    vec![
        ManifestEntry {
            path: "a.bin".to_string(),
            chunk: ChunkData {
                lengths: vec![10, 20],
                checksums: vec!["h1".to_string(), "h2".to_string()],
                permissions: 0,
                version_name: "v1".to_string(),
            },
        },
        ManifestEntry {
            path: "b.bin".to_string(),
            chunk: ChunkData {
                lengths: vec![30],
                checksums: vec!["h3".to_string()],
                permissions: 0,
                version_name: "v1".to_string(),
            },
        },
    ]
}

fn agent(stored: Vec<(String, bool)>) -> GameDownloadAgent {
    GameDownloadAgent::new(
        "game".to_string(),
        "v1".to_string(),
        "/games/game".to_string(),
        manifest(),
        &stored,
        1 << 30,
        0,
    )
    .ok()
    .expect("enough space")
}

fn done(a: &GameDownloadAgent, h: &str) -> Option<bool> {
    a.dropdata().to_pairs().into_iter().find(|(k, _)| k == h).map(|(_, v)| v)
}

#[test]
fn fresh_run_fetches_everything() {
    let mut a = agent(vec![]);
    assert_eq!(a.control_flag(), DownloadThreadControlFlag::Stop);
    assert_eq!(a.status(), DownloadStatus::Queued);
    assert!(a.ensure_buckets().is_ok());
    a.setup_progress(0);
    assert_eq!(a.progress().get_max(), 60);
    assert_eq!(a.progress().size(), 3);
    let work = a.plan_run();
    assert_eq!(work.len(), 1);
    assert_eq!(work[0].0, 0);
    assert_eq!(work[0].1.drops.len(), 3);
    assert_eq!(done(&a, "h2"), Some(false));
    let complete = a.finish_run(&vec!["h1".to_string(), "h2".to_string(), "h3".to_string()]);
    assert!(complete);
    assert_eq!(done(&a, "h1"), Some(true));
    assert_eq!(done(&a, "h3"), Some(true));
}

#[test]
fn resumed_run_fetches_only_remaining_chunks() {
    let mut a = agent(vec![("h1".to_string(), true), ("stale".to_string(), true)]);
    a.ensure_buckets().ok().expect("manifest present");
    assert_eq!(done(&a, "stale"), None);
    assert_eq!(done(&a, "h1"), Some(true));
    a.setup_progress(0);
    let work = a.plan_run();
    let left: Vec<&str> = work[0].1.drops.iter().map(|d| d.checksum.as_str()).collect();
    assert_eq!(left, vec!["h2", "h3"]);
    assert_eq!(a.progress().sum(), 10);
    assert!(!a.finish_run(&vec!["h2".to_string()]));
    assert_eq!(done(&a, "h2"), Some(true));
    assert_eq!(done(&a, "h3"), Some(false));
    let again = a.plan_run();
    assert_eq!(again[0].1.drops.len(), 1);
    assert_eq!(again[0].1.drops[0].checksum, "h3");
}

#[test]
fn run_without_completions_stays_incomplete() {
    let mut a = agent(vec![]);
    a.ensure_buckets().ok().expect("manifest present");
    assert!(!a.finish_run(&vec![]));
    assert_eq!(done(&a, "h1"), Some(false));
}

#[test]
fn validation_failure_marks_chunk_for_refetch() {
    let mut a = agent(vec![]);
    a.ensure_buckets().ok().expect("manifest present");
    assert!(a.finish_run(&vec!["h1".to_string(), "h2".to_string(), "h3".to_string()]));
    assert!(!a.apply_validation(&vec!["h2".to_string()]));
    assert_eq!(done(&a, "h2"), Some(false));
    a.ensure_buckets().ok().expect("buckets kept");
    let work = a.plan_run();
    assert_eq!(work.len(), 1);
    assert_eq!(work[0].1.drops.len(), 1);
    assert_eq!(work[0].1.drops[0].checksum, "h2");
    assert!(a.apply_validation(&vec![]));
}

#[test]
fn network_flap_retries_then_completes() {
    let flap = || Err(ApplicationDownloadError::Communication(RemoteAccessError::InvalidEndpoint));
    assert!(matches!(worker_next(0, flap()), WorkerAction::Retry));
    assert!(matches!(worker_next(1, flap()), WorkerAction::Retry));
    assert!(matches!(worker_next(2, Ok(true)), WorkerAction::MarkComplete));
}

#[test]
fn retries_are_bounded_and_fatal_errors_reported_at_once() {
    let flap = Err(ApplicationDownloadError::Checksum);
    assert!(matches!(worker_next(2, flap), WorkerAction::Report(ApplicationDownloadError::Checksum)));
    assert!(matches!(
        worker_next(0, Err(ApplicationDownloadError::DiskFull(1, 0))),
        WorkerAction::Report(ApplicationDownloadError::DiskFull(1, 0))
    ));
    assert!(matches!(
        worker_next(0, Err(ApplicationDownloadError::NotInitialized)),
        WorkerAction::Report(ApplicationDownloadError::NotInitialized)
    ));
    assert!(matches!(worker_next(0, Ok(false)), WorkerAction::Abort));
    assert!(ApplicationDownloadError::Lock.is_retryable());
    assert!(ApplicationDownloadError::IoError("x".to_string()).is_retryable());
    assert!(!ApplicationDownloadError::DownloadError(RemoteAccessError::OutOfSync).is_retryable());
}

#[test]
fn completion_status_depends_on_setup_command() {
    match completion_status("v1".to_string(), "/g".to_string(), &String::new()) {
        GameDownloadStatus::Installed { version_name, install_dir } => {
            assert_eq!((version_name.as_str(), install_dir.as_str()), ("v1", "/g"))
        }
        _ => panic!("expected installed"),
    }
    assert!(matches!(
        completion_status("v1".to_string(), "/g".to_string(), &"setup.sh".to_string()),
        GameDownloadStatus::SetupRequired { .. }
    ));
}

#[test]
fn metadata_is_a_game_key() {
    let a = agent(vec![]);
    let m = a.metadata();
    assert_eq!(m.id, "game");
    assert_eq!(m.version.as_deref(), Some("v1"));
}

#[test]
fn pause_and_resume_leave_same_record_as_one_run() {
    let mut whole = agent(vec![]);
    whole.ensure_buckets().ok().expect("manifest present");
    whole.finish_run(&vec!["h1".to_string(), "h2".to_string(), "h3".to_string()]);

    let mut paused = agent(vec![]);
    paused.ensure_buckets().ok().expect("manifest present");
    assert!(!paused.finish_run(&vec!["h2".to_string()]));
    paused.ensure_buckets().ok().expect("buckets kept");
    assert!(paused.finish_run(&vec!["h1".to_string(), "h3".to_string()]));

    let mut a = whole.dropdata().to_pairs();
    let mut b = paused.dropdata().to_pairs();
    a.sort();
    b.sort();
    assert_eq!(a, b);
}

#[test]
fn worker_loop_decisions() {
    let go = DownloadThreadControlFlag::Go;
    let stop = DownloadThreadControlFlag::Stop;
    assert!(matches!(run_next(RunPhase::Download, Ok(true), go), RunStep::Validate));
    assert!(matches!(run_next(RunPhase::Download, Ok(true), stop), RunStep::Exit));
    assert!(matches!(run_next(RunPhase::Download, Ok(false), go), RunStep::Exit));
    assert!(matches!(run_next(RunPhase::Validate, Ok(true), go), RunStep::Complete));
    assert!(matches!(run_next(RunPhase::Validate, Ok(false), go), RunStep::Download));
    assert!(matches!(run_next(RunPhase::Validate, Ok(true), stop), RunStep::Exit));
    assert!(matches!(
        run_next(RunPhase::Validate, Err(ApplicationDownloadError::Lock), go),
        RunStep::Fail(ApplicationDownloadError::Lock)
    ));
}
