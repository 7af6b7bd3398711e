use drop_client::cache::{cache_file_name, ObjectCache};
use drop_client::contexts::{decode_drop_data, decode_record, encode_record, CompletionMap, DropData};
use drop_client::library::{get_current_meta, ApplicationsDb, GameStatusManager, Platform};
use drop_client::messages::disk_full_message;
use drop_client::types::{
    ApplicationDownloadError, ApplicationTransientStatus, DownloadType, DownloadableMetadata,
    DropServerError, GameDownloadStatus, LibraryError, RemoteAccessError,
};

#[test]
fn cache_file_name_is_md5_hex_of_key() {
    assert_eq!(cache_file_name(""), "d41d8cd98f00b204e9800998ecf8427e");
    assert_eq!(cache_file_name("abc"), "900150983cd24fb0d6963f7d28e17f72");
}

#[test]
fn cache_entries_expire_after_a_day() {
    let c = ObjectCache::new("image/png".to_string(), vec![1, 2], 1000);
    assert_eq!(c.expiry, 1000 + 86400);
    assert!(!c.has_expired(1000 + 86400));
    assert!(c.has_expired(1000 + 86401));
    assert_eq!(ObjectCache::new(String::new(), vec![], u64::MAX).expiry, u64::MAX);
}

#[test]
fn disk_full_message_uses_binary_units() {
    let m = disk_full_message(2048, 512);
    assert!(m.starts_with("Game requires 2 KiB, 512 B"), "{m}");
    assert!(m.ends_with(" remaining left on disk."));
    assert_eq!(ApplicationDownloadError::DiskFull(2048, 512).message(), m);
}

#[test]
fn error_messages() {
    assert_eq!(
        ApplicationDownloadError::Communication(RemoteAccessError::ManifestDownloadFailed(404, "gone".to_string())).message(),
        "failed to download game manifest: 404 gone"
    );
    let server = DropServerError { status_code: 500, status_message: "boom".to_string() };
    assert_eq!(
        RemoteAccessError::InvalidResponse(server).message(),
        "server returned an invalid response: 500, boom"
    );
    assert_eq!(ApplicationDownloadError::Checksum.message(), "checksum failed to validate for download");
    assert_eq!(ApplicationDownloadError::IoError("denied".to_string()).message(), "io error: denied");
    assert_eq!(
        ApplicationDownloadError::DownloadError(RemoteAccessError::GameNotFound("g".to_string())).message(),
        "Download failed with error could not find game on server: g"
    );
    assert_eq!(
        LibraryError::MetaNotFound("g".to_string()).message(),
        "Could not locate any installed version of game ID g in the database"
    );
}

#[test]
fn completion_map_later_pair_wins() {
    let pairs = vec![("a".to_string(), true), ("b".to_string(), false), ("a".to_string(), false)];
    let m = CompletionMap::from_pairs(&pairs);
    assert_eq!(m.len(), 2);
    assert!(!m.get(&"a".to_string()));
    assert!(!m.get(&"missing".to_string()));
    let mut d = DropData::generate("g".to_string(), "v".to_string(), "/p".to_string(), &pairs);
    d.set_context("b".to_string(), true);
    assert!(d.get_contexts().get(&"b".to_string()));
    d.set_contexts(&vec![("c".to_string(), true)]);
    assert_eq!(d.to_pairs(), vec![("c".to_string(), true)]);
}

#[test]
fn status_lookup_prefers_transient() {
    let key = DownloadableMetadata::new("g".to_string(), None, DownloadType::Game);
    let mut db = ApplicationsDb {
        transient_statuses: vec![(key, ApplicationTransientStatus::Downloading { version_name: "v1".to_string() })],
        game_statuses: vec![("g".to_string(), GameDownloadStatus::Remote)],
        installed_game_version: vec![],
        game_versions: vec![],
    };
    let (durable, transient) = GameStatusManager::fetch_state(&"g".to_string(), &db);
    assert!(durable.is_none());
    assert!(matches!(transient, Some(ApplicationTransientStatus::Downloading { .. })));
    db.transient_statuses.clear();
    let (durable, transient) = GameStatusManager::fetch_state(&"g".to_string(), &db);
    assert!(matches!(durable, Some(GameDownloadStatus::Remote)));
    assert!(transient.is_none());
    let (durable, transient) = GameStatusManager::fetch_state(&"other".to_string(), &db);
    assert!(durable.is_none() && transient.is_none());
    assert!(get_current_meta(&"g".to_string(), &db).is_none());
    db.installed_game_version.push(("g".to_string(), DownloadableMetadata::new("g".to_string(), Some("v1".to_string()), DownloadType::Game)));
    assert_eq!(get_current_meta(&"g".to_string(), &db).map(|k| k.version), Some(Some("v1".to_string())));
}

#[test]
fn only_linux_is_case_sensitive() {
    assert!(Platform::Linux.is_case_sensitive());
    assert!(!Platform::Windows.is_case_sensitive());
    assert!(!Platform::macOS.is_case_sensitive());
}

#[test]
fn completion_record_round_trip() {
    let pairs = vec![("abc".to_string(), true), ("d e".to_string(), false), (String::new(), true)];
    let text = encode_record(&pairs);
    assert_eq!(text, "1abc\n0d e\n1\n");
    let chars: Vec<char> = text.chars().collect();
    assert_eq!(decode_record(&chars), Some(pairs));
    assert_eq!(decode_record(&Vec::new()), Some(Vec::new()));
}

#[test]
fn malformed_completion_record_is_rejected() {
    let bad_flag: Vec<char> = "xabc\n".chars().collect();
    assert_eq!(decode_record(&bad_flag), None);
    let unterminated: Vec<char> = "1abc".chars().collect();
    assert_eq!(decode_record(&unterminated), None);
}

#[test]
fn platform_names_ignore_case_and_whitespace() {
    assert_eq!(Platform::from_name("  Linux \n"), Some(Platform::Linux));
    assert_eq!(Platform::from_name("WINDOWS"), Some(Platform::Windows));
    assert_eq!(Platform::from_name("MacOS"), Some(Platform::macOS));
    assert_eq!(Platform::from_name("mac"), Some(Platform::macOS));
    assert_eq!(Platform::from_name("beos"), None);
    assert_eq!(Platform::from_name("\u{3000}linux\u{a0}"), Some(Platform::Linux));
    assert_eq!(Platform::from_name("lin ux"), None);
}

#[test]
fn drop_data_record_round_trip() {
    let pairs = vec![("h1".to_string(), true)];
    let d = DropData::generate("g".to_string(), "v1".to_string(), "/games/g".to_string(), &pairs);
    let text = d.encode();
    assert_eq!(text, "g\nv1\n/games/g\n1h1\n");
    let chars: Vec<char> = text.chars().collect();
    let (id, version, base, read) = decode_drop_data(&chars).expect("well formed");
    assert_eq!((id.as_str(), version.as_str(), base.as_str()), ("g", "v1", "/games/g"));
    assert_eq!(read, pairs);
    let truncated: Vec<char> = "g\nv1\n".chars().collect();
    assert!(decode_drop_data(&truncated).is_none());
}
