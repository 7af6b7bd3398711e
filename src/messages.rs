//! Human-readable messages of the library's errors.

use vstd::prelude::*;
use vstd::string::StringExecFns;
use crate::types::{ApplicationDownloadError, LibraryError, RemoteAccessError};

verus! {

/// A byte count in binary units (KiB, MiB, ...), as humansize writes it.
pub uninterp spec fn size_text(bytes: u64) -> Seq<char>;

/// Relies on humansize::format_size with the BINARY options: the text depends
/// on the byte count alone.
#[verifier::external_body]
fn format_binary_size(bytes: u64) -> (r: String)
    ensures
        r@ == size_text(bytes),
{
    humansize::format_size(bytes, humansize::BINARY)
}

pub open spec fn digit_char(d: nat) -> char {
    if d == 0 { '0' } else if d == 1 { '1' } else if d == 2 { '2' } else if d == 3 { '3' } else if d
        == 4 { '4' } else if d == 5 { '5' } else if d == 6 { '6' } else if d == 7 { '7' } else if d
        == 8 { '8' } else { '9' }
}

/// Decimal digits of `n`, most significant first, without sign or padding.
pub open spec fn decimal(n: nat) -> Seq<char>
    decreases n,
{
    if n < 10 {
        seq![digit_char(n)]
    } else {
        decimal(n / 10).push(digit_char(n % 10))
    }
}

fn digit(d: u64) -> (c: char)
    requires
        d < 10,
    ensures
        c == digit_char(d as nat),
{
    if d == 0 { '0' } else if d == 1 { '1' } else if d == 2 { '2' } else if d == 3 { '3' } else if d
        == 4 { '4' } else if d == 5 { '5' } else if d == 6 { '6' } else if d == 7 { '7' } else if d
        == 8 { '8' } else { '9' }
}

/// Decimal text of `n`.
pub(crate) fn decimal_text(n: u64) -> (r: String)
    ensures
        r@ == decimal(n as nat),
    decreases n,
{
    if n < 10 {
        let mut s = String::new();
        crate::contexts::push_char(&mut s, digit(n));
        assert(s@ =~= seq![digit_char(n as nat)]);
        s
    } else {
        let mut s = decimal_text(n / 10);
        crate::contexts::push_char(&mut s, digit(n % 10));
        s
    }
}

pub open spec fn disk_full_text(required: u64, available: u64) -> Seq<char> {
    "Game requires "@ + size_text(required) + ", "@ + size_text(available) + " remaining left on disk."@
}

/// The message shown when a download does not fit on disk.
pub fn disk_full_message(required: u64, available: u64) -> (r: String)
    ensures
        r@ == disk_full_text(required, available),
{
    let mut s = String::from_str("Game requires ");
    s.append(format_binary_size(required).as_str());
    s.append(", ");
    s.append(format_binary_size(available).as_str());
    s.append(" remaining left on disk.");
    s
}

pub open spec fn remote_text(e: RemoteAccessError) -> Seq<char> {
    match e {
        RemoteAccessError::FetchError(m) => m@,
        RemoteAccessError::ParsingError(m) => m@,
        RemoteAccessError::InvalidEndpoint => "invalid drop endpoint"@,
        RemoteAccessError::HandshakeFailed(m) => "failed to complete handshake: "@ + m@,
        RemoteAccessError::GameNotFound(id) => "could not find game on server: "@ + id@,
        RemoteAccessError::InvalidResponse(err) => "server returned an invalid response: "@
            + decimal(err.status_code as nat) + ", "@ + err.status_message@,
        RemoteAccessError::UnparseableResponse(m) => "server returned an invalid response: "@ + m@,
        RemoteAccessError::ManifestDownloadFailed(status, body) => "failed to download game manifest: "@
            + decimal(status as nat) + " "@ + body@,
        RemoteAccessError::OutOfSync => "server's and client's time are out of sync. Please ensure they are within at least 30 seconds of each other"@,
        RemoteAccessError::Cache(m) => "Cache Error: "@ + m@,
        RemoteAccessError::CorruptedState => "Drop encountered a corrupted internal state. Please report this to the developers, with details of reproduction."@,
    }
}

fn prefixed(prefix: &str, rest: &String) -> (r: String)
    ensures
        r@ == prefix@ + rest@,
{
    let mut s = String::from_str(prefix);
    s.append(rest.as_str());
    s
}

impl RemoteAccessError {
    pub fn message(&self) -> (r: String)
        ensures
            r@ == remote_text(*self),
    {
        match self {
            RemoteAccessError::FetchError(m) => m.clone(),
            RemoteAccessError::ParsingError(m) => m.clone(),
            RemoteAccessError::InvalidEndpoint => String::from_str("invalid drop endpoint"),
            RemoteAccessError::HandshakeFailed(m) => prefixed("failed to complete handshake: ", m),
            RemoteAccessError::GameNotFound(id) => prefixed("could not find game on server: ", id),
            RemoteAccessError::InvalidResponse(err) => {
                let mut s = String::from_str("server returned an invalid response: ");
                s.append(decimal_text(err.status_code as u64).as_str());
                s.append(", ");
                s.append(err.status_message.as_str());
                s
            },
            RemoteAccessError::UnparseableResponse(m) => prefixed("server returned an invalid response: ", m),
            RemoteAccessError::ManifestDownloadFailed(status, body) => {
                let mut s = String::from_str("failed to download game manifest: ");
                s.append(decimal_text(*status as u64).as_str());
                s.append(" ");
                s.append(body.as_str());
                s
            },
            RemoteAccessError::OutOfSync => String::from_str(
                "server's and client's time are out of sync. Please ensure they are within at least 30 seconds of each other",
            ),
            RemoteAccessError::Cache(m) => prefixed("Cache Error: ", m),
            RemoteAccessError::CorruptedState => String::from_str(
                "Drop encountered a corrupted internal state. Please report this to the developers, with details of reproduction.",
            ),
        }
    }
}

pub open spec fn download_error_text(e: ApplicationDownloadError) -> Seq<char> {
    match e {
        ApplicationDownloadError::NotInitialized => "Download not initalized, did something go wrong?"@,
        ApplicationDownloadError::DiskFull(required, available) => disk_full_text(required, available),
        ApplicationDownloadError::Communication(r) => remote_text(r),
        ApplicationDownloadError::Lock => "failed to acquire lock. Something has gone very wrong internally. Please restart the application"@,
        ApplicationDownloadError::Checksum => "checksum failed to validate for download"@,
        ApplicationDownloadError::IoError(m) => "io error: "@ + m@,
        ApplicationDownloadError::DownloadError(r) => "Download failed with error "@ + remote_text(r),
    }
}

impl ApplicationDownloadError {
    /// The message shown to the user.
    pub fn message(&self) -> (r: String)
        ensures
            r@ == download_error_text(*self),
    {
        match self {
            ApplicationDownloadError::NotInitialized => String::from_str("Download not initalized, did something go wrong?"),
            ApplicationDownloadError::DiskFull(required, available) => disk_full_message(*required, *available),
            ApplicationDownloadError::Communication(r) => r.message(),
            ApplicationDownloadError::Lock => String::from_str(
                "failed to acquire lock. Something has gone very wrong internally. Please restart the application",
            ),
            ApplicationDownloadError::Checksum => String::from_str("checksum failed to validate for download"),
            ApplicationDownloadError::IoError(m) => prefixed("io error: ", m),
            ApplicationDownloadError::DownloadError(r) => prefixed("Download failed with error ", &r.message()),
        }
    }
}

pub open spec fn library_error_text(e: LibraryError) -> Seq<char> {
    match e {
        LibraryError::MetaNotFound(id) => "Could not locate any installed version of game ID "@ + id@
            + " in the database"@,
        LibraryError::VersionNotFound(id) => "Could not locate any installed version  for game id "@
            + id@ + " in the database"@,
    }
}

impl LibraryError {
    pub fn message(&self) -> (r: String)
        ensures
            r@ == library_error_text(*self),
    {
        match self {
            LibraryError::MetaNotFound(id) => {
                let mut s = prefixed("Could not locate any installed version of game ID ", id);
                s.append(" in the database");
                s
            },
            LibraryError::VersionNotFound(id) => {
                let mut s = prefixed("Could not locate any installed version  for game id ", id);
                s.append(" in the database");
                s
            },
        }
    }
}

} // verus!
