//! Game library records and the lookups of install state.

use vstd::prelude::*;
use vstd::string::StringExecFns;
use crate::types::{
    ApplicationTransientStatus, DownloadType, DownloadableMetadata, GameDownloadStatus, MetaView,
    RemoteAccessError,
};

verus! {

/// Connection and sign-in state of the client.
#[derive(Clone, Copy, Debug, PartialEq, Eq, Structural)]
pub enum AppStatus {
    NotConfigured,
    Offline,
    ServerError,
    SignedOut,
    SignedIn,
    SignedInNeedsReauth,
    ServerUnavailable,
}

/// Operating systems a game version can target.
#[allow(non_camel_case_types)]
#[derive(Clone, Copy, Debug, PartialEq, Eq, Hash, Structural)]
pub enum Platform {
    Windows,
    Linux,
    macOS,
}

impl Platform {
    /// Whether file names on the platform's usual file system are case sensitive.
    pub fn is_case_sensitive(&self) -> (r: bool)
        ensures
            r == (*self == Platform::Linux),
    {
        match self {
            Platform::Windows | Platform::macOS => false,
            Platform::Linux => true,
        }
    }
}

/// Lowercase form of a text, as `str::to_lowercase` gives it.
pub uninterp spec fn lowercase_of(s: Seq<char>) -> Seq<char>;

/// Whether a character has the Unicode `White_Space` property.
pub open spec fn is_white_space(c: char) -> bool {
    let u = c as u32;
    (0x9 <= u && u <= 0xd) || u == 0x20 || u == 0x85 || u == 0xa0 || u == 0x1680 || (0x2000 <= u && u
        <= 0x200a) || u == 0x2028 || u == 0x2029 || u == 0x202f || u == 0x205f || u == 0x3000
}

pub open spec fn trim_start(s: Seq<char>) -> Seq<char>
    decreases s.len(),
{
    if s.len() > 0 && is_white_space(s[0]) {
        trim_start(s.drop_first())
    } else {
        s
    }
}

pub open spec fn trim_end(s: Seq<char>) -> Seq<char>
    decreases s.len(),
{
    if s.len() > 0 && is_white_space(s.last()) {
        trim_end(s.drop_last())
    } else {
        s
    }
}

/// A text without its leading and trailing whitespace.
pub open spec fn trimmed_spec(s: Seq<char>) -> Seq<char> {
    trim_end(trim_start(s))
}

/// Relies on str::to_lowercase: the result depends on the characters alone.
#[verifier::external_body]
fn lowercase(s: &str) -> (r: String)
    ensures
        r@ == lowercase_of(s@),
{
    s.to_lowercase()
}

/// Relies on str::trim: drops leading and trailing `White_Space` characters.
#[verifier::external_body]
fn trimmed(s: &str) -> (r: String)
    ensures
        r@ == trimmed_spec(s@),
{
    s.trim().to_string()
}

/// The platform a normalised name stands for.
pub open spec fn platform_named(n: Seq<char>) -> Option<Platform> {
    if n == "windows"@ {
        Some(Platform::Windows)
    } else if n == "linux"@ {
        Some(Platform::Linux)
    } else if n == "mac"@ || n == "macos"@ {
        Some(Platform::macOS)
    } else {
        None
    }
}

impl Platform {
    /// The platform a name stands for, ignoring case and surrounding whitespace.
    pub fn from_name(value: &str) -> (r: Option<Platform>)
        ensures
            r == platform_named(trimmed_spec(lowercase_of(value@))),
    {
        let lower = lowercase(value);
        let name = trimmed(lower.as_str());
        if name == String::from_str("windows") {
            Some(Platform::Windows)
        } else if name == String::from_str("linux") {
            Some(Platform::Linux)
        } else if name == String::from_str("mac") || name == String::from_str("macos") {
            Some(Platform::macOS)
        } else {
            None
        }
    }
}

/// When a cloud-save rule applies.
#[derive(Clone, Copy, Debug, PartialEq, Eq, Structural)]
pub enum Condition {
    Os(Platform),
    Other,
}

/// Whether a compatibility layer for foreign executables is installed.
#[derive(Clone, Copy, Debug)]
pub struct CompatInfo {
    pub umu_installed: bool,
}

/// The signed-in user.
#[derive(Clone, Debug)]
pub struct User {
    pub id: String,
    pub username: String,
    pub admin: bool,
    pub display_name: String,
    pub profile_picture_object_id: String,
}

/// A game as the server describes it.
#[derive(Clone, Debug)]
pub struct Game {
    pub id: String,
    pub m_name: String,
    pub m_short_description: String,
    pub m_description: String,
    pub m_icon_object_id: String,
    pub m_banner_object_id: String,
    pub m_cover_object_id: String,
    pub m_image_library_object_ids: Vec<String>,
    pub m_image_carousel_object_ids: Vec<String>,
}

impl Game {
    pub fn id(&self) -> (r: &String)
        ensures
            r == &self.id,
    {
        &self.id
    }
}

/// One version of a game as the server describes it.
#[derive(Clone, Debug)]
pub struct GameVersion {
    pub game_id: String,
    pub version_name: String,
    pub launch_command: String,
    pub setup_command: String,
}

/// Durable and transient status of a game; at most one is present.
pub type GameStatusWithTransient = (Option<GameDownloadStatus>, Option<ApplicationTransientStatus>);

/// A game with its status and installed version, for the UI.
pub struct FetchGameStruct {
    pub game: Game,
    pub status: GameStatusWithTransient,
    pub version: Option<GameVersion>,
}

impl FetchGameStruct {
    pub fn new(game: Game, status: GameStatusWithTransient, version: Option<GameVersion>) -> (r: Self)
        ensures
            r.game == game,
            r.status == status,
            r.version == version,
    {
        FetchGameStruct { game, status, version }
    }
}

/// A status change of one game, for the UI.
pub struct GameUpdateEvent {
    pub game_id: String,
    pub status: GameStatusWithTransient,
    pub version: Option<GameVersion>,
}

/// Throughput published to the UI.
#[derive(Clone, Copy, Debug)]
pub struct StatsUpdateEvent {
    pub speed: usize,
    pub time: usize,
}

/// Launch options the UI sends for a game.
pub struct FrontendGameOptions {
    pub launch_string: String,
}

impl FrontendGameOptions {
    pub fn launch_string(&self) -> (r: &String)
        ensures
            r == &self.launch_string,
    {
        &self.launch_string
    }
}

/// The part of the persisted state that records installs.
pub struct ApplicationsDb {
    pub transient_statuses: Vec<(DownloadableMetadata, ApplicationTransientStatus)>,
    pub game_statuses: Vec<(String, GameDownloadStatus)>,
    pub installed_game_version: Vec<(String, DownloadableMetadata)>,
    /// Version records fetched from the server, per game id and version name.
    pub game_versions: Vec<(String, String, GameVersion)>,
}

/// Field-wise equality of two durable statuses, strings compared by content.
pub open spec fn same_download_status(a: GameDownloadStatus, b: GameDownloadStatus) -> bool {
    match (a, b) {
        (GameDownloadStatus::Remote, GameDownloadStatus::Remote) => true,
        (
            GameDownloadStatus::PartiallyInstalled { version_name: v1, install_dir: d1 },
            GameDownloadStatus::PartiallyInstalled { version_name: v2, install_dir: d2 },
        ) => v1@ == v2@ && d1@ == d2@,
        (
            GameDownloadStatus::Installed { version_name: v1, install_dir: d1 },
            GameDownloadStatus::Installed { version_name: v2, install_dir: d2 },
        ) => v1@ == v2@ && d1@ == d2@,
        (
            GameDownloadStatus::SetupRequired { version_name: v1, install_dir: d1 },
            GameDownloadStatus::SetupRequired { version_name: v2, install_dir: d2 },
        ) => v1@ == v2@ && d1@ == d2@,
        _ => false,
    }
}

/// Field-wise equality of two transient statuses, strings compared by content.
pub open spec fn same_transient_status(a: ApplicationTransientStatus, b: ApplicationTransientStatus) -> bool {
    match (a, b) {
        (ApplicationTransientStatus::Queued { version_name: v1 }, ApplicationTransientStatus::Queued { version_name: v2 }) => v1@ == v2@,
        (ApplicationTransientStatus::Downloading { version_name: v1 }, ApplicationTransientStatus::Downloading { version_name: v2 }) => v1@ == v2@,
        (ApplicationTransientStatus::Validating { version_name: v1 }, ApplicationTransientStatus::Validating { version_name: v2 }) => v1@ == v2@,
        (ApplicationTransientStatus::Updating { version_name: v1 }, ApplicationTransientStatus::Updating { version_name: v2 }) => v1@ == v2@,
        (ApplicationTransientStatus::Uninstalling, ApplicationTransientStatus::Uninstalling) => true,
        (ApplicationTransientStatus::Running, ApplicationTransientStatus::Running) => true,
        _ => false,
    }
}

impl GameDownloadStatus {
    pub fn duplicate(&self) -> (r: Self)
        ensures
            same_download_status(r, *self),
    {
        match self {
            GameDownloadStatus::Remote => GameDownloadStatus::Remote,
            GameDownloadStatus::PartiallyInstalled { version_name, install_dir } => GameDownloadStatus::PartiallyInstalled {
                version_name: version_name.clone(),
                install_dir: install_dir.clone(),
            },
            GameDownloadStatus::Installed { version_name, install_dir } => GameDownloadStatus::Installed {
                version_name: version_name.clone(),
                install_dir: install_dir.clone(),
            },
            GameDownloadStatus::SetupRequired { version_name, install_dir } => GameDownloadStatus::SetupRequired {
                version_name: version_name.clone(),
                install_dir: install_dir.clone(),
            },
        }
    }
}

impl ApplicationTransientStatus {
    pub fn duplicate(&self) -> (r: Self)
        ensures
            same_transient_status(r, *self),
    {
        match self {
            ApplicationTransientStatus::Queued { version_name } => ApplicationTransientStatus::Queued { version_name: version_name.clone() },
            ApplicationTransientStatus::Downloading { version_name } => ApplicationTransientStatus::Downloading { version_name: version_name.clone() },
            ApplicationTransientStatus::Validating { version_name } => ApplicationTransientStatus::Validating { version_name: version_name.clone() },
            ApplicationTransientStatus::Updating { version_name } => ApplicationTransientStatus::Updating { version_name: version_name.clone() },
            ApplicationTransientStatus::Uninstalling => ApplicationTransientStatus::Uninstalling,
            ApplicationTransientStatus::Running => ApplicationTransientStatus::Running,
        }
    }
}

/// The key under which a game's transient status is recorded.
pub open spec fn game_key(game_id: Seq<char>) -> MetaView {
    MetaView { id: game_id, version: None, download_type: DownloadType::Game }
}

/// The latest value recorded for `k`.
pub open spec fn id_lookup<T>(s: Seq<(String, T)>, k: Seq<char>) -> Option<T>
    decreases s.len(),
{
    if s.len() == 0 {
        None
    } else if s.last().0@ == k {
        Some(s.last().1)
    } else {
        id_lookup(s.drop_last(), k)
    }
}

/// The latest transient status recorded for `k`.
pub open spec fn meta_lookup(s: Seq<(DownloadableMetadata, ApplicationTransientStatus)>, k: MetaView) -> Option<ApplicationTransientStatus>
    decreases s.len(),
{
    if s.len() == 0 {
        None
    } else if s.last().0@ == k {
        Some(s.last().1)
    } else {
        meta_lookup(s.drop_last(), k)
    }
}

/// Position of the latest record for `k`, if any.
pub open spec fn id_last<T>(s: Seq<(String, T)>, k: Seq<char>) -> Option<int>
    decreases s.len(),
{
    if s.len() == 0 {
        None
    } else if s.last().0@ == k {
        Some(s.len() - 1)
    } else {
        id_last(s.drop_last(), k)
    }
}

pub open spec fn meta_last(s: Seq<(DownloadableMetadata, ApplicationTransientStatus)>, k: MetaView) -> Option<int>
    decreases s.len(),
{
    if s.len() == 0 {
        None
    } else if s.last().0@ == k {
        Some(s.len() - 1)
    } else {
        meta_last(s.drop_last(), k)
    }
}

/// `s` without the records of `k`.
pub open spec fn id_without<T>(s: Seq<(String, T)>, k: Seq<char>) -> Seq<(String, T)>
    decreases s.len(),
{
    if s.len() == 0 {
        s
    } else if s.last().0@ == k {
        id_without(s.drop_last(), k)
    } else {
        id_without(s.drop_last(), k).push(s.last())
    }
}

pub open spec fn meta_without(s: Seq<(DownloadableMetadata, ApplicationTransientStatus)>, k: MetaView) -> Seq<(DownloadableMetadata, ApplicationTransientStatus)>
    decreases s.len(),
{
    if s.len() == 0 {
        s
    } else if s.last().0@ == k {
        meta_without(s.drop_last(), k)
    } else {
        meta_without(s.drop_last(), k).push(s.last())
    }
}

proof fn lemma_id_last<T>(s: Seq<(String, T)>, k: Seq<char>)
    ensures
        id_last(s, k) matches Some(i) ==> 0 <= i < s.len() && s[i].0@ == k && id_lookup(s, k) == Some(s[i].1),
        id_last(s, k) is None ==> id_lookup(s, k) is None,
    decreases s.len(),
{
    if s.len() > 0 && s.last().0@ != k {
        lemma_id_last(s.drop_last(), k);
    }
}

proof fn lemma_meta_last(s: Seq<(DownloadableMetadata, ApplicationTransientStatus)>, k: MetaView)
    ensures
        meta_last(s, k) matches Some(i) ==> 0 <= i < s.len() && s[i].0@ == k && meta_lookup(s, k) == Some(s[i].1),
        meta_last(s, k) is None ==> meta_lookup(s, k) is None,
    decreases s.len(),
{
    if s.len() > 0 && s.last().0@ != k {
        lemma_meta_last(s.drop_last(), k);
    }
}

proof fn lemma_id_update<T>(s: Seq<(String, T)>, k: Seq<char>, i: int, t: (String, T), k2: Seq<char>)
    requires
        id_last(s, k) == Some(i),
        t.0@ == k,
    ensures
        id_lookup(s.update(i, t), k2) == (if k2 == k { Some(t.1) } else { id_lookup(s, k2) }),
    decreases s.len(),
{
    lemma_id_last(s, k);
    if i < s.len() - 1 {
        lemma_id_update(s.drop_last(), k, i, t, k2);
        assert(s.update(i, t).drop_last() =~= s.drop_last().update(i, t));
    } else {
        assert(s.update(i, t).drop_last() =~= s.drop_last());
    }
}

proof fn lemma_meta_update(s: Seq<(DownloadableMetadata, ApplicationTransientStatus)>, k: MetaView, i: int, t: (DownloadableMetadata, ApplicationTransientStatus), k2: MetaView)
    requires
        meta_last(s, k) == Some(i),
        t.0@ == k,
    ensures
        meta_lookup(s.update(i, t), k2) == (if k2 == k { Some(t.1) } else { meta_lookup(s, k2) }),
    decreases s.len(),
{
    lemma_meta_last(s, k);
    if i < s.len() - 1 {
        lemma_meta_update(s.drop_last(), k, i, t, k2);
        assert(s.update(i, t).drop_last() =~= s.drop_last().update(i, t));
    } else {
        assert(s.update(i, t).drop_last() =~= s.drop_last());
    }
}

proof fn lemma_id_without<T>(s: Seq<(String, T)>, k: Seq<char>, k2: Seq<char>)
    ensures
        id_lookup(id_without(s, k), k2) == (if k2 == k { None } else { id_lookup(s, k2) }),
    decreases s.len(),
{
    if s.len() > 0 {
        lemma_id_without(s.drop_last(), k, k2);
        if s.last().0@ != k {
            assert(id_without(s, k).drop_last() =~= id_without(s.drop_last(), k));
        }
    }
}

proof fn lemma_meta_without(s: Seq<(DownloadableMetadata, ApplicationTransientStatus)>, k: MetaView, k2: MetaView)
    ensures
        meta_lookup(meta_without(s, k), k2) == (if k2 == k { None } else { meta_lookup(s, k2) }),
    decreases s.len(),
{
    if s.len() > 0 {
        lemma_meta_without(s.drop_last(), k, k2);
        if s.last().0@ != k {
            assert(meta_without(s, k).drop_last() =~= meta_without(s.drop_last(), k));
        }
    }
}

fn find_id<T>(v: &Vec<(String, T)>, k: &String) -> (r: Option<usize>)
    ensures
        r matches Some(i) ==> id_last(v@, k@) == Some(i as int),
        r is None ==> id_last(v@, k@) is None,
{
    let mut i = v.len();
    assert(v@.subrange(0, v@.len() as int) =~= v@);
    while i > 0
        invariant
            i <= v@.len(),
            id_last(v@, k@) == id_last(v@.subrange(0, i as int), k@),
        decreases i,
    {
        assert(v@.subrange(0, i as int).drop_last() =~= v@.subrange(0, i as int - 1));
        if v[i - 1].0 == *k {
            return Some(i - 1);
        }
        i = i - 1;
    }
    None
}

fn find_meta(v: &Vec<(DownloadableMetadata, ApplicationTransientStatus)>, k: &DownloadableMetadata) -> (r: Option<usize>)
    ensures
        r matches Some(i) ==> meta_last(v@, k@) == Some(i as int),
        r is None ==> meta_last(v@, k@) is None,
{
    let mut i = v.len();
    assert(v@.subrange(0, v@.len() as int) =~= v@);
    while i > 0
        invariant
            i <= v@.len(),
            meta_last(v@, k@) == meta_last(v@.subrange(0, i as int), k@),
        decreases i,
    {
        assert(v@.subrange(0, i as int).drop_last() =~= v@.subrange(0, i as int - 1));
        if v[i - 1].0.same_as(k) {
            return Some(i - 1);
        }
        i = i - 1;
    }
    None
}

/// Records `val` for `k`, replacing the latest record of `k` if there is one.
fn upsert_id<T>(v: &mut Vec<(String, T)>, k: String, val: T)
    ensures
        forall|k2: Seq<char>| #[trigger] id_lookup(final(v)@, k2) == (if k2 == k@ { Some(val) } else { id_lookup(old(v)@, k2) }),
{
    let ghost kv = k@;
    let found = find_id(v, &k);
    proof {
        lemma_id_last(v@, kv);
    }
    match found {
        Some(i) => {
            let ghost before = v@;
            v.set(i, (k, val));
            proof {
                assert forall|k2: Seq<char>| #[trigger] id_lookup(v@, k2) == (if k2 == kv { Some(val) } else { id_lookup(before, k2) }) by {
                    lemma_id_update(before, kv, i as int, v@[i as int], k2);
                }
            }
        },
        None => {
            let ghost before = v@;
            v.push((k, val));
            proof {
                assert forall|k2: Seq<char>| #[trigger] id_lookup(v@, k2) == (if k2 == kv { Some(val) } else { id_lookup(before, k2) }) by {
                    assert(v@.drop_last() =~= before);
                }
            }
        },
    }
}

/// Removes every record of `k`.
fn remove_id<T>(v: &mut Vec<(String, T)>, k: &String)
    ensures
        final(v)@ == id_without(old(v)@, k@),
{
    let ghost orig = v@;
    let mut kept: Vec<(String, T)> = Vec::new();
    let mut rest: Vec<(String, T)> = Vec::new();
    std::mem::swap(v, &mut rest);
    let n = rest.len();
    let mut i: usize = 0;
    while i < n
        invariant
            i <= n,
            n == orig.len(),
            rest@ == orig.subrange(i as int, n as int),
            kept@ == id_without(orig.subrange(0, i as int), k@),
        decreases n - i,
    {
        let item = rest.remove(0);
        assert(orig.subrange(0, i as int + 1).drop_last() =~= orig.subrange(0, i as int));
        assert(rest@ =~= orig.subrange(i as int + 1, n as int));
        if item.0 != *k {
            kept.push(item);
        }
        i = i + 1;
    }
    assert(orig.subrange(0, n as int) =~= orig);
    *v = kept;
}

fn upsert_meta(v: &mut Vec<(DownloadableMetadata, ApplicationTransientStatus)>, k: DownloadableMetadata, val: ApplicationTransientStatus)
    ensures
        forall|k2: MetaView| #[trigger] meta_lookup(final(v)@, k2) == (if k2 == k@ { Some(val) } else { meta_lookup(old(v)@, k2) }),
{
    let ghost kv = k@;
    let found = find_meta(v, &k);
    proof {
        lemma_meta_last(v@, kv);
    }
    match found {
        Some(i) => {
            let ghost before = v@;
            v.set(i, (k, val));
            proof {
                assert forall|k2: MetaView| #[trigger] meta_lookup(v@, k2) == (if k2 == kv { Some(val) } else { meta_lookup(before, k2) }) by {
                    lemma_meta_update(before, kv, i as int, v@[i as int], k2);
                }
            }
        },
        None => {
            let ghost before = v@;
            v.push((k, val));
            proof {
                assert forall|k2: MetaView| #[trigger] meta_lookup(v@, k2) == (if k2 == kv { Some(val) } else { meta_lookup(before, k2) }) by {
                    assert(v@.drop_last() =~= before);
                }
            }
        },
    }
}

fn remove_meta(v: &mut Vec<(DownloadableMetadata, ApplicationTransientStatus)>, k: &DownloadableMetadata)
    ensures
        final(v)@ == meta_without(old(v)@, k@),
{
    let ghost orig = v@;
    let mut kept: Vec<(DownloadableMetadata, ApplicationTransientStatus)> = Vec::new();
    let mut rest: Vec<(DownloadableMetadata, ApplicationTransientStatus)> = Vec::new();
    std::mem::swap(v, &mut rest);
    let n = rest.len();
    let mut i: usize = 0;
    while i < n
        invariant
            i <= n,
            n == orig.len(),
            rest@ == orig.subrange(i as int, n as int),
            kept@ == meta_without(orig.subrange(0, i as int), k@),
        decreases n - i,
    {
        let item = rest.remove(0);
        assert(orig.subrange(0, i as int + 1).drop_last() =~= orig.subrange(0, i as int));
        assert(rest@ =~= orig.subrange(i as int + 1, n as int));
        if !item.0.same_as(k) {
            kept.push(item);
        }
        i = i + 1;
    }
    assert(orig.subrange(0, n as int) =~= orig);
    *v = kept;
}

/// The latest version record of game `id` at version `v`.
pub open spec fn version_lookup(s: Seq<(String, String, GameVersion)>, id: Seq<char>, v: Seq<char>) -> Option<GameVersion>
    decreases s.len(),
{
    if s.len() == 0 {
        None
    } else if s.last().0@ == id && s.last().1@ == v {
        Some(s.last().2)
    } else {
        version_lookup(s.drop_last(), id, v)
    }
}

pub open spec fn version_last(s: Seq<(String, String, GameVersion)>, id: Seq<char>, v: Seq<char>) -> Option<int>
    decreases s.len(),
{
    if s.len() == 0 {
        None
    } else if s.last().0@ == id && s.last().1@ == v {
        Some(s.len() - 1)
    } else {
        version_last(s.drop_last(), id, v)
    }
}

proof fn lemma_version_last(s: Seq<(String, String, GameVersion)>, id: Seq<char>, v: Seq<char>)
    ensures
        version_last(s, id, v) matches Some(i) ==> 0 <= i < s.len() && s[i].0@ == id && s[i].1@ == v,
    decreases s.len(),
{
    if s.len() > 0 && !(s.last().0@ == id && s.last().1@ == v) {
        lemma_version_last(s.drop_last(), id, v);
    }
}

proof fn lemma_version_update(
    s: Seq<(String, String, GameVersion)>,
    id: Seq<char>,
    v: Seq<char>,
    i: int,
    t: (String, String, GameVersion),
    id2: Seq<char>,
    v2: Seq<char>,
)
    requires
        version_last(s, id, v) == Some(i),
        t.0@ == id,
        t.1@ == v,
    ensures
        version_lookup(s.update(i, t), id2, v2) == (if id2 == id && v2 == v { Some(t.2) } else { version_lookup(s, id2, v2) }),
    decreases s.len(),
{
    lemma_version_last(s, id, v);
    if i < s.len() - 1 {
        lemma_version_update(s.drop_last(), id, v, i, t, id2, v2);
        assert(s.update(i, t).drop_last() =~= s.drop_last().update(i, t));
    } else {
        assert(s.update(i, t).drop_last() =~= s.drop_last());
    }
}

fn find_version(s: &Vec<(String, String, GameVersion)>, id: &String, v: &String) -> (r: Option<usize>)
    ensures
        r matches Some(i) ==> version_last(s@, id@, v@) == Some(i as int),
        r is None ==> version_last(s@, id@, v@) is None,
{
    let mut i = s.len();
    assert(s@.subrange(0, s@.len() as int) =~= s@);
    while i > 0
        invariant
            i <= s@.len(),
            version_last(s@, id@, v@) == version_last(s@.subrange(0, i as int), id@, v@),
        decreases i,
    {
        assert(s@.subrange(0, i as int).drop_last() =~= s@.subrange(0, i as int - 1));
        if s[i - 1].0 == *id && s[i - 1].1 == *v {
            return Some(i - 1);
        }
        i = i - 1;
    }
    None
}

/// Records `record` for game `id` at version `v`, replacing the latest record of that pair.
fn upsert_version(s: &mut Vec<(String, String, GameVersion)>, id: String, v: String, record: GameVersion)
    ensures
        forall|id2: Seq<char>, v2: Seq<char>| #[trigger] version_lookup(final(s)@, id2, v2) == (if id2 == id@ && v2 == v@ {
            Some(record)
        } else {
            version_lookup(old(s)@, id2, v2)
        }),
{
    let ghost (idv, vv) = (id@, v@);
    let found = find_version(s, &id, &v);
    proof {
        lemma_version_last(s@, idv, vv);
    }
    let ghost before = s@;
    match found {
        Some(i) => {
            s.set(i, (id, v, record));
            proof {
                assert forall|id2: Seq<char>, v2: Seq<char>| #[trigger] version_lookup(s@, id2, v2) == (if id2 == idv && v2 == vv {
                    Some(record)
                } else {
                    version_lookup(before, id2, v2)
                }) by {
                    lemma_version_update(before, idv, vv, i as int, s@[i as int], id2, v2);
                }
            }
        },
        None => {
            s.push((id, v, record));
            proof {
                assert forall|id2: Seq<char>, v2: Seq<char>| #[trigger] version_lookup(s@, id2, v2) == (if id2 == idv && v2 == vv {
                    Some(record)
                } else {
                    version_lookup(before, id2, v2)
                }) by {
                    assert(s@.drop_last() =~= before);
                }
            }
        },
    }
}

pub struct GameStatusManager {}

impl GameStatusManager {
    /// The status of a game: its transient status if one is recorded (and
    /// then no durable one), else its durable status if one is recorded.
    pub fn fetch_state(game_id: &String, database: &ApplicationsDb) -> (r: GameStatusWithTransient)
        ensures
            ({
                let t = meta_lookup(database.transient_statuses@, game_key(game_id@));
                let g = id_lookup(database.game_statuses@, game_id@);
                if t is Some {
                    r.0 is None && (r.1 matches Some(x) && same_transient_status(x, t->Some_0))
                } else if g is Some {
                    r.1 is None && (r.0 matches Some(x) && same_download_status(x, g->Some_0))
                } else {
                    r.0 is None && r.1 is None
                }
            }),
    {
        let key = DownloadableMetadata { id: game_id.clone(), version: None, download_type: DownloadType::Game };
        proof {
            lemma_meta_last(database.transient_statuses@, game_key(game_id@));
            lemma_id_last(database.game_statuses@, game_id@);
        }
        if let Some(ti) = find_meta(&database.transient_statuses, &key) {
            return (None, Some(database.transient_statuses[ti].1.duplicate()));
        }
        if let Some(gi) = find_id(&database.game_statuses, game_id) {
            return (Some(database.game_statuses[gi].1.duplicate()), None);
        }
        (None, None)
    }
}

/// The key of the version of a game that is installed, if any.
pub fn get_current_meta(game_id: &String, database: &ApplicationsDb) -> (r: Option<DownloadableMetadata>)
    ensures
        ({
            let m = id_lookup(database.installed_game_version@, game_id@);
            if m is Some {
                r matches Some(k) && k@ == m->Some_0@
            } else {
                r is None
            }
        }),
{
    proof {
        lemma_id_last(database.installed_game_version@, game_id@);
    }
    match find_id(&database.installed_game_version, game_id) {
        Some(i) => Some(database.installed_game_version[i].1.duplicate()),
        None => None,
    }
}

impl ApplicationsDb {
    /// Sets the transient status of a download, replacing any it had.
    pub fn set_transient_status(&mut self, key: DownloadableMetadata, status: ApplicationTransientStatus)
        ensures
            forall|k: MetaView| #[trigger] meta_lookup(final(self).transient_statuses@, k) == (if k == key@ {
                Some(status)
            } else {
                meta_lookup(old(self).transient_statuses@, k)
            }),
            final(self).game_statuses == old(self).game_statuses,
            final(self).installed_game_version == old(self).installed_game_version,
            final(self).game_versions == old(self).game_versions,
    {
        upsert_meta(&mut self.transient_statuses, key, status);
    }

    /// Clears the transient status of a download.
    pub fn clear_transient_status(&mut self, key: &DownloadableMetadata)
        ensures
            forall|k: MetaView| #[trigger] meta_lookup(final(self).transient_statuses@, k) == (if k == key@ {
                None
            } else {
                meta_lookup(old(self).transient_statuses@, k)
            }),
            final(self).game_statuses == old(self).game_statuses,
            final(self).installed_game_version == old(self).installed_game_version,
    {
        remove_meta(&mut self.transient_statuses, key);
        proof {
            assert forall|k: MetaView| #[trigger] meta_lookup(self.transient_statuses@, k) == (if k == key@ {
                None
            } else {
                meta_lookup(old(self).transient_statuses@, k)
            }) by {
                lemma_meta_without(old(self).transient_statuses@, key@, k);
            }
        }
    }

    /// Records that a download of a game version has started: its transient
    /// status becomes `Downloading` that version.
    pub fn mark_downloading(&mut self, meta: &DownloadableMetadata)
        requires
            meta.version is Some,
        ensures
            meta_lookup(final(self).transient_statuses@, meta@) matches Some(ApplicationTransientStatus::Downloading { version_name: v })
                && Some(v@) == crate::types::opt_str_view(meta.version),
            forall|k: MetaView| k != meta@ ==> #[trigger] meta_lookup(final(self).transient_statuses@, k) == meta_lookup(old(self).transient_statuses@, k),
            final(self).game_statuses == old(self).game_statuses,
            final(self).installed_game_version == old(self).installed_game_version,
            final(self).game_versions == old(self).game_versions,
    {
        let version_name = match &meta.version {
            Some(v) => v.clone(),
            None => String::new(),
        };
        self.set_transient_status(meta.duplicate(), ApplicationTransientStatus::Downloading { version_name });
    }

    /// Records that a download of a game version is being validated.
    pub fn mark_validating(&mut self, meta: &DownloadableMetadata)
        requires
            meta.version is Some,
        ensures
            meta_lookup(final(self).transient_statuses@, meta@) matches Some(ApplicationTransientStatus::Validating { version_name: v })
                && Some(v@) == crate::types::opt_str_view(meta.version),
            forall|k: MetaView| k != meta@ ==> #[trigger] meta_lookup(final(self).transient_statuses@, k) == meta_lookup(old(self).transient_statuses@, k),
            final(self).game_statuses == old(self).game_statuses,
            final(self).installed_game_version == old(self).installed_game_version,
            final(self).game_versions == old(self).game_versions,
    {
        let version_name = match &meta.version {
            Some(v) => v.clone(),
            None => String::new(),
        };
        self.set_transient_status(meta.duplicate(), ApplicationTransientStatus::Validating { version_name });
    }

    /// Records a download as partially installed in `install_dir`, so that it
    /// can be resumed, and clears its transient status.
    pub fn set_partially_installed(&mut self, meta: &DownloadableMetadata, install_dir: String)
        requires
            meta.version is Some,
        ensures
            meta_lookup(final(self).transient_statuses@, meta@) is None,
            id_lookup(final(self).game_statuses@, meta.id@) matches Some(GameDownloadStatus::PartiallyInstalled { version_name: v, install_dir: d })
                && Some(v@) == crate::types::opt_str_view(meta.version) && d@ == install_dir@,
            id_lookup(final(self).installed_game_version@, meta.id@) matches Some(m) && m@ == meta@,
            forall|k: MetaView| k != meta@ ==> #[trigger] meta_lookup(final(self).transient_statuses@, k) == meta_lookup(old(self).transient_statuses@, k),
            forall|id: Seq<char>| id != meta.id@ ==> #[trigger] id_lookup(final(self).game_statuses@, id) == id_lookup(old(self).game_statuses@, id),
            forall|id: Seq<char>| id != meta.id@ ==> #[trigger] id_lookup(final(self).installed_game_version@, id) == id_lookup(old(self).installed_game_version@, id),
    {
        self.clear_transient_status(meta);
        let version_name = match &meta.version {
            Some(v) => v.clone(),
            None => String::new(),
        };
        upsert_id(&mut self.game_statuses, meta.id.clone(), GameDownloadStatus::PartiallyInstalled { version_name, install_dir });
        upsert_id(&mut self.installed_game_version, meta.id.clone(), meta.duplicate());
    }

    /// Records a validated download with the version record the server gave
    /// for it: installed, or waiting for the record's setup command. A key
    /// without a version is not a downloaded game version.
    pub fn record_install(&mut self, meta: &DownloadableMetadata, install_dir: String, version: GameVersion) -> (r: Result<(), RemoteAccessError>)
        ensures
            r is Err <==> meta.version is None,
            r matches Err(e) ==> (e matches RemoteAccessError::GameNotFound(id) && id@ == meta.id@),
            r is Err ==> *final(self) == *old(self),
            r is Ok ==> {
                &&& id_lookup(final(self).installed_game_version@, meta.id@) matches Some(m) && m@ == meta@
                &&& id_lookup(final(self).game_statuses@, meta.id@) matches Some(s)
                    && crate::agent::completion_status_spec(meta.version->Some_0@, install_dir@, version.setup_command@, s)
                &&& version_lookup(final(self).game_versions@, meta.id@, meta.version->Some_0@) == Some(version)
                &&& forall|id: Seq<char>, v: Seq<char>| !(id == meta.id@ && v == meta.version->Some_0@)
                    ==> #[trigger] version_lookup(final(self).game_versions@, id, v) == version_lookup(old(self).game_versions@, id, v)
                &&& final(self).transient_statuses == old(self).transient_statuses
                &&& forall|id: Seq<char>| id != meta.id@ ==> #[trigger] id_lookup(final(self).game_statuses@, id) == id_lookup(old(self).game_statuses@, id)
                &&& forall|id: Seq<char>| id != meta.id@ ==> #[trigger] id_lookup(final(self).installed_game_version@, id) == id_lookup(old(self).installed_game_version@, id)
            },
    {
        let version_name = match &meta.version {
            Some(v) => v.clone(),
            None => return Err(RemoteAccessError::GameNotFound(meta.id.clone())),
        };
        upsert_id(&mut self.installed_game_version, meta.id.clone(), meta.duplicate());
        let status = crate::agent::completion_status(version_name.clone(), install_dir, &version.setup_command);
        upsert_id(&mut self.game_statuses, meta.id.clone(), status);
        upsert_version(&mut self.game_versions, meta.id.clone(), version_name, version);
        Ok(())
    }

    /// Marks a game as uninstalling and returns the directory to remove, or
    /// none when it has no files on disk.
    pub fn begin_uninstall(&mut self, meta: &DownloadableMetadata) -> (r: Option<String>)
        ensures
            meta_lookup(final(self).transient_statuses@, meta@) == Some(ApplicationTransientStatus::Uninstalling),
            final(self).game_statuses == old(self).game_statuses,
            final(self).installed_game_version == old(self).installed_game_version,
            r matches Some(d) ==> (id_lookup(old(self).game_statuses@, meta.id@) matches Some(s) && installed_dir(s) == Some(d@)),
            r is None ==> (id_lookup(old(self).game_statuses@, meta.id@) matches Some(s) ==> installed_dir(s) is None),
            forall|k: MetaView| k != meta@ ==> #[trigger] meta_lookup(final(self).transient_statuses@, k) == meta_lookup(old(self).transient_statuses@, k),
    {
        self.set_transient_status(meta.duplicate(), ApplicationTransientStatus::Uninstalling);
        proof {
            lemma_id_last(self.game_statuses@, meta.id@);
        }
        match find_id(&self.game_statuses, &meta.id) {
            Some(i) => match &self.game_statuses[i].1 {
                GameDownloadStatus::Installed { install_dir, .. } => Some(install_dir.clone()),
                GameDownloadStatus::SetupRequired { install_dir, .. } => Some(install_dir.clone()),
                GameDownloadStatus::PartiallyInstalled { install_dir, .. } => Some(install_dir.clone()),
                GameDownloadStatus::Remote => None,
            },
            None => None,
        }
    }

    /// Records that a game's files are gone: it is remote again.
    pub fn finish_uninstall(&mut self, meta: &DownloadableMetadata)
        ensures
            meta_lookup(final(self).transient_statuses@, meta@) is None,
            id_lookup(final(self).installed_game_version@, meta.id@) is None,
            id_lookup(final(self).game_statuses@, meta.id@) matches Some(GameDownloadStatus::Remote),
            forall|k: MetaView| k != meta@ ==> #[trigger] meta_lookup(final(self).transient_statuses@, k) == meta_lookup(old(self).transient_statuses@, k),
            forall|id: Seq<char>| id != meta.id@ ==> #[trigger] id_lookup(final(self).game_statuses@, id) == id_lookup(old(self).game_statuses@, id),
            forall|id: Seq<char>| id != meta.id@ ==> #[trigger] id_lookup(final(self).installed_game_version@, id) == id_lookup(old(self).installed_game_version@, id),
    {
        self.clear_transient_status(meta);
        remove_id(&mut self.installed_game_version, &meta.id);
        proof {
            assert forall|id: Seq<char>| #[trigger] id_lookup(self.installed_game_version@, id) == (if id == meta.id@ {
                None
            } else {
                id_lookup(old(self).installed_game_version@, id)
            }) by {
                lemma_id_without(old(self).installed_game_version@, meta.id@, id);
            }
        }
        upsert_id(&mut self.game_statuses, meta.id.clone(), GameDownloadStatus::Remote);
    }
}

/// Directory of a game that has files on disk.
pub open spec fn installed_dir(s: GameDownloadStatus) -> Option<Seq<char>> {
    match s {
        GameDownloadStatus::Installed { install_dir, .. } => Some(install_dir@),
        GameDownloadStatus::SetupRequired { install_dir, .. } => Some(install_dir@),
        GameDownloadStatus::PartiallyInstalled { install_dir, .. } => Some(install_dir@),
        GameDownloadStatus::Remote => None,
    }
}

/// Body of the handshake request.
pub struct HandshakeRequestBody {
    pub client_id: String,
    pub token: String,
}

impl HandshakeRequestBody {
    pub fn new(client_id: String, token: String) -> (r: Self)
        ensures
            r.client_id == client_id,
            r.token == token,
    {
        HandshakeRequestBody { client_id, token }
    }
}

/// Body of the handshake response: the client's key pair and id.
pub struct HandshakeResponse {
    pub private: String,
    pub certificate: String,
    pub id: String,
}

/// Body of the server's health probe.
pub struct DropHealthcheck {
    pub app_name: String,
}

impl DropHealthcheck {
    pub fn app_name(&self) -> (r: &String)
        ensures
            r == &self.app_name,
    {
        &self.app_name
    }
}

/// State the UI reads at startup.
pub struct AppState {
    pub status: AppStatus,
    pub user: Option<User>,
    pub games: Vec<Game>,
}

/// Failure of the download manager's plumbing.
#[derive(Clone, Debug)]
pub enum DownloadManagerError {
    IOError(String),
    SignalError(String),
}

} // verus!
