use drop_client::auth::{authorization_header, nonce_text};
use drop_client::library::{get_current_meta, ApplicationsDb, GameStatusManager, GameVersion};
use drop_client::types::{
    ApplicationTransientStatus, DownloadType, DownloadableMetadata, GameDownloadStatus, RemoteAccessError,
};

fn meta(version: Option<&str>) -> DownloadableMetadata {
    DownloadableMetadata::new("g".to_string(), version.map(|v| v.to_string()), DownloadType::Game)
}

fn version(name: &str, setup: &str) -> GameVersion {
    GameVersion {
        game_id: "g".to_string(),
        version_name: name.to_string(),
        launch_command: "run.sh".to_string(),
        setup_command: setup.to_string(),
    }
}

fn empty_db() -> ApplicationsDb {
    ApplicationsDb { transient_statuses: vec![], game_statuses: vec![], installed_game_version: vec![], game_versions: vec![] }
}

#[test]
fn game_moves_from_partial_to_installed() {
    let mut db = empty_db();
    db.set_transient_status(meta(None), ApplicationTransientStatus::Queued { version_name: "v1".to_string() });
    db.set_transient_status(meta(None), ApplicationTransientStatus::Downloading { version_name: "v1".to_string() });
    assert_eq!(db.transient_statuses.len(), 1);
    db.set_partially_installed(&meta(Some("v1")), "/games/g".to_string());
    db.clear_transient_status(&meta(None));
    let (durable, transient) = GameStatusManager::fetch_state(&"g".to_string(), &db);
    assert!(transient.is_none());
    assert!(matches!(durable, Some(GameDownloadStatus::PartiallyInstalled { .. })));
    assert!(db.record_install(&meta(Some("v1")), "/games/g".to_string(), version("v1", "")).is_ok());
    let (durable, _) = GameStatusManager::fetch_state(&"g".to_string(), &db);
    match durable {
        Some(GameDownloadStatus::Installed { version_name, install_dir }) => {
            assert_eq!((version_name.as_str(), install_dir.as_str()), ("v1", "/games/g"))
        }
        _ => panic!("expected installed"),
    }
    assert_eq!(db.game_statuses.len(), 1);
    assert_eq!(get_current_meta(&"g".to_string(), &db).and_then(|m| m.version), Some("v1".to_string()));
}

#[test]
fn setup_command_leaves_game_waiting_for_setup() {
    let mut db = empty_db();
    assert!(db.record_install(&meta(Some("v2")), "/d".to_string(), version("v2", "install.sh")).is_ok());
    assert!(matches!(db.game_statuses[0].1, GameDownloadStatus::SetupRequired { .. }));
}

#[test]
fn install_without_version_is_rejected() {
    let mut db = empty_db();
    match db.record_install(&meta(None), "/d".to_string(), version("v1", "")) {
        Err(RemoteAccessError::GameNotFound(id)) => assert_eq!(id, "g"),
        _ => panic!("expected game not found"),
    }
    assert!(db.game_statuses.is_empty());
}

#[test]
fn uninstall_returns_directory_and_ends_remote() {
    let mut db = empty_db();
    db.record_install(&meta(Some("v1")), "/games/g".to_string(), version("v1", "")).ok().expect("has version");
    assert_eq!(db.begin_uninstall(&meta(Some("v1"))), Some("/games/g".to_string()));
    assert!(matches!(db.transient_statuses[0].1, ApplicationTransientStatus::Uninstalling));
    db.finish_uninstall(&meta(Some("v1")));
    assert!(db.transient_statuses.is_empty());
    assert!(db.installed_game_version.is_empty());
    assert!(matches!(db.game_statuses[0].1, GameDownloadStatus::Remote));
    assert_eq!(db.begin_uninstall(&meta(Some("v1"))), None);
}

#[test]
fn authorization_header_layout() {
    assert_eq!(
        authorization_header(&"client".to_string(), 1700000000123, &"c2ln".to_string()),
        "Nonce client 1700000000123 c2ln"
    );
    assert_eq!(nonce_text(0), "0");
    assert_eq!(nonce_text(u64::MAX), "18446744073709551615");
}

#[test]
fn install_keeps_version_record() {
    let mut db = empty_db();
    db.record_install(&meta(Some("v1")), "/g".to_string(), version("v1", "")).ok().expect("has version");
    db.record_install(&meta(Some("v1")), "/g".to_string(), version("v1", "setup.sh")).ok().expect("has version");
    assert_eq!(db.game_versions.len(), 1);
    assert_eq!(db.game_versions[0].0, "g");
    assert_eq!(db.game_versions[0].1, "v1");
    assert_eq!(db.game_versions[0].2.setup_command, "setup.sh");
    assert!(matches!(db.game_statuses[0].1, GameDownloadStatus::SetupRequired { .. }));
}

#[test]
fn download_and_validation_are_recorded_as_transient() {
    let mut db = empty_db();
    db.mark_downloading(&meta(Some("v1")));
    assert!(matches!(&db.transient_statuses[0].1, ApplicationTransientStatus::Downloading { version_name } if version_name == "v1"));
    db.mark_validating(&meta(Some("v1")));
    assert_eq!(db.transient_statuses.len(), 1);
    assert!(matches!(db.transient_statuses[0].1, ApplicationTransientStatus::Validating { .. }));
}
