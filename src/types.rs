//! Identifiers, statuses and errors shared by the download core.

use vstd::prelude::*;

verus! {

/// What kind of object a download fetches.
#[derive(Clone, Copy, Debug, PartialEq, Eq, Hash, Structural)]
pub enum DownloadType {
    Game,
    Tool,
    Dlc,
    Mod,
}

/// Key of one download: equal exactly when all three fields are equal.
#[derive(Clone, Debug, Eq, Hash)]
pub struct DownloadableMetadata {
    pub id: String,
    pub version: Option<String>,
    pub download_type: DownloadType,
}

/// Mathematical value of a download key.
pub struct MetaView {
    pub id: Seq<char>,
    pub version: Option<Seq<char>>,
    pub download_type: DownloadType,
}

pub open spec fn opt_str_view(o: Option<String>) -> Option<Seq<char>> {
    match o {
        Some(s) => Some(s@),
        None => None,
    }
}

impl View for DownloadableMetadata {
    type V = MetaView;

    open spec fn view(&self) -> MetaView {
        MetaView {
            id: self.id@,
            version: opt_str_view(self.version),
            download_type: self.download_type,
        }
    }
}

/// Copies an optional string, keeping its contents.
pub fn copy_opt_string(o: &Option<String>) -> (r: Option<String>)
    ensures
        opt_str_view(r) == opt_str_view(*o),
{
    match o {
        Some(s) => Some(s.clone()),
        None => None,
    }
}

impl DownloadableMetadata {
    pub fn new(id: String, version: Option<String>, download_type: DownloadType) -> (r: Self)
        ensures
            r.id@ == id@,
            opt_str_view(r.version) == opt_str_view(version),
            r.download_type == download_type,
    {
        DownloadableMetadata { id, version, download_type }
    }

    /// A copy with the same view.
    pub fn duplicate(&self) -> (r: Self)
        ensures
            r@ == self@,
    {
        DownloadableMetadata {
            id: self.id.clone(),
            version: copy_opt_string(&self.version),
            download_type: self.download_type,
        }
    }

    /// Whether two keys agree on every field.
    pub fn same_as(&self, other: &DownloadableMetadata) -> (r: bool)
        ensures
            r == (self@ == other@),
    {
        let versions_equal = match &self.version {
            Some(a) => match &other.version {
                Some(b) => *a == *b,
                None => false,
            },
            None => other.version.is_none(),
        };
        assert(versions_equal == (opt_str_view(self.version) == opt_str_view(other.version)));
        let r = self.id == other.id && versions_equal && self.download_type == other.download_type;
        proof {
            if r {
                assert(self@ == other@);
            }
        }
        r
    }
}

impl PartialEq for DownloadableMetadata {
    fn eq(&self, other: &DownloadableMetadata) -> (r: bool)
        ensures
            r == (self@ == other@),
    {
        self.same_as(other)
    }
}

impl vstd::std_specs::cmp::PartialEqSpecImpl for DownloadableMetadata {
    open spec fn obeys_eq_spec() -> bool {
        true
    }

    open spec fn eq_spec(&self, other: &DownloadableMetadata) -> bool {
        self@ == other@
    }
}

/// Run state of one download as the queue manager sees it.
#[derive(Clone, Copy, Debug, PartialEq, Eq, Structural)]
pub enum DownloadStatus {
    Queued,
    Downloading,
    Validating,
    Error,
}

/// State of the queue manager as a whole.
#[derive(Clone, Copy, Debug, PartialEq, Eq, Structural)]
pub enum DownloadManagerStatus {
    Downloading,
    Paused,
    Empty,
    Error,
}

/// Three-state cooperative signal polled by workers.
#[derive(Clone, Copy, Debug, PartialEq, Eq, Structural)]
pub enum DownloadThreadControlFlag {
    Go,
    Stop,
    Wait,
}

/// Shared control of one run; starts out stopped.
pub struct DownloadThreadControl {
    flag: DownloadThreadControlFlag,
}

impl DownloadThreadControl {
    pub closed spec fn value(&self) -> DownloadThreadControlFlag {
        self.flag
    }

    pub fn new(flag: DownloadThreadControlFlag) -> (r: Self)
        ensures
            r.value() == flag,
    {
        DownloadThreadControl { flag }
    }

    pub fn get(&self) -> (r: DownloadThreadControlFlag)
        ensures
            r == self.value(),
    {
        self.flag
    }

    pub fn set(&mut self, flag: DownloadThreadControlFlag)
        ensures
            final(self).value() == flag,
    {
        self.flag = flag;
    }
}

/// Error body returned by the server.
#[derive(Clone, Debug)]
pub struct DropServerError {
    pub status_code: usize,
    pub status_message: String,
}

/// Failure while talking to the server or the local cache.
#[derive(Clone, Debug)]
pub enum RemoteAccessError {
    FetchError(String),
    ParsingError(String),
    InvalidEndpoint,
    HandshakeFailed(String),
    GameNotFound(String),
    InvalidResponse(DropServerError),
    UnparseableResponse(String),
    ManifestDownloadFailed(u16, String),
    OutOfSync,
    Cache(String),
    CorruptedState,
}

/// Failure of a download run.
#[derive(Clone, Debug)]
pub enum ApplicationDownloadError {
    NotInitialized,
    Communication(RemoteAccessError),
    DiskFull(u64, u64),
    Checksum,
    Lock,
    IoError(String),
    DownloadError(RemoteAccessError),
}

/// Failure of a library lookup.
#[derive(Clone, Debug)]
pub enum LibraryError {
    MetaNotFound(String),
    VersionNotFound(String),
}

/// Whether a chunk worker tries again after this error.
pub open spec fn is_retryable_spec(e: ApplicationDownloadError) -> bool {
    match e {
        ApplicationDownloadError::Communication(_) => true,
        ApplicationDownloadError::Checksum => true,
        ApplicationDownloadError::Lock => true,
        ApplicationDownloadError::IoError(_) => true,
        _ => false,
    }
}

impl ApplicationDownloadError {
    /// Transient failures are retried; all others end the run.
    pub fn is_retryable(&self) -> (r: bool)
        ensures
            r == is_retryable_spec(*self),
    {
        match self {
            ApplicationDownloadError::Communication(_) => true,
            ApplicationDownloadError::Checksum => true,
            ApplicationDownloadError::Lock => true,
            ApplicationDownloadError::IoError(_) => true,
            _ => false,
        }
    }
}

/// Durable install state of a game.
#[derive(Clone, Debug)]
pub enum GameDownloadStatus {
    Remote,
    PartiallyInstalled { version_name: String, install_dir: String },
    Installed { version_name: String, install_dir: String },
    SetupRequired { version_name: String, install_dir: String },
}

/// Ephemeral run state of a game.
#[derive(Clone, Debug)]
pub enum ApplicationTransientStatus {
    Queued { version_name: String },
    Downloading { version_name: String },
    Validating { version_name: String },
    Uninstalling,
    Updating { version_name: String },
    Running,
}

} // verus!
