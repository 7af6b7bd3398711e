//! The download agent of one game version: disk-space pre-flight, bucket
//! planning, which work a run still has to do, and the completion record
//! that a run or a validation leaves behind. Network and disk work is done by
//! the caller between these steps.

use vstd::prelude::*;
use crate::contexts::{is_done, pairs_map, CompletionMap, DropData};
use crate::planner::{
    buckets_view, drops_view, generate_buckets, manifest_view, manifest_wf, plan, BucketView,
    DownloadBucket, DownloadDrop, DropView, EntryView, ManifestEntry,
};
use crate::progress::ProgressObject;
use crate::types::{
    ApplicationDownloadError, DownloadStatus, DownloadThreadControl, DownloadThreadControlFlag,
    DownloadType, DownloadableMetadata, GameDownloadStatus,
};

verus! {

/// Bytes of the first `j` chunks of a file that are not recorded complete.
pub open spec fn file_pending(e: EntryView, ctx: Map<Seq<char>, bool>, j: int) -> int
    decreases j,
{
    if j <= 0 {
        0
    } else {
        file_pending(e, ctx, j - 1) + if is_done(ctx, e.checksums[j - 1]) {
            0
        } else {
            e.lengths[j - 1] as int
        }
    }
}

/// Bytes of the first `k` files that are not recorded complete.
pub open spec fn manifest_pending(m: Seq<EntryView>, ctx: Map<Seq<char>, bool>, k: int) -> int
    decreases k,
{
    if k <= 0 {
        0
    } else {
        manifest_pending(m, ctx, k - 1) + file_pending(m[k - 1], ctx, m[k - 1].lengths.len() as int)
    }
}

/// Space a download still needs, capped at `u64::MAX`.
pub open spec fn required_space_spec(m: Seq<EntryView>, ctx: Map<Seq<char>, bool>) -> int {
    let p = manifest_pending(m, ctx, m.len() as int);
    if p > u64::MAX {
        u64::MAX as int
    } else {
        p
    }
}

/// Every drop of a bucket list, bucket by bucket.
pub open spec fn flat_drops(bs: Seq<BucketView>) -> Seq<DropView>
    decreases bs.len(),
{
    if bs.len() == 0 {
        Seq::empty()
    } else {
        flat_drops(bs.drop_last()) + bs.last().drops
    }
}

/// The completion map over exactly the hashes of `ds`, each taken from `source`.
pub open spec fn restrict_to(ds: Seq<DropView>, source: Map<Seq<char>, bool>) -> Map<Seq<char>, bool>
    decreases ds.len(),
{
    if ds.len() == 0 {
        Map::empty()
    } else {
        restrict_to(ds.drop_last(), source).insert(ds.last().checksum, is_done(source, ds.last().checksum))
    }
}

/// `m` with every hash of `hs` recorded complete.
pub open spec fn merge_completed(m: Map<Seq<char>, bool>, hs: Seq<Seq<char>>) -> Map<Seq<char>, bool>
    decreases hs.len(),
{
    if hs.len() == 0 {
        m
    } else {
        merge_completed(m, hs.drop_last()).insert(hs.last(), true)
    }
}

/// `m` with every hash of `hs` recorded incomplete.
pub open spec fn mark_invalid(m: Map<Seq<char>, bool>, hs: Seq<Seq<char>>) -> Map<Seq<char>, bool>
    decreases hs.len(),
{
    if hs.len() == 0 {
        m
    } else {
        mark_invalid(m, hs.drop_last()).insert(hs.last(), false)
    }
}

pub open spec fn strings_view(v: Seq<String>) -> Seq<Seq<char>> {
    v.map_values(|s: String| s@)
}

/// Whether a drop still has to be fetched.
pub open spec fn is_pending(ctx: Map<Seq<char>, bool>, d: DropView) -> bool {
    !is_done(ctx, d.checksum)
}

pub open spec fn pending_pred(ctx: Map<Seq<char>, bool>) -> spec_fn(DropView) -> bool {
    |d: DropView| is_pending(ctx, d)
}

/// The work of a run over the first `n` buckets: each bucket that has a
/// drop left, with its index and only the drops left.
pub open spec fn pending_buckets(bs: Seq<BucketView>, ctx: Map<Seq<char>, bool>, n: int) -> Seq<(int, BucketView)>
    decreases n,
{
    if n <= 0 {
        Seq::empty()
    } else {
        let rest = pending_buckets(bs, ctx, n - 1);
        let b = bs[n - 1];
        let left = b.drops.filter(pending_pred(ctx));
        if left.len() > 0 {
            rest.push((n - 1, BucketView { drops: left, ..b }))
        } else {
            rest
        }
    }
}

/// Distinct versions among the buckets, in order of first appearance.
pub open spec fn distinct_versions(bs: Seq<BucketView>, n: int) -> Seq<Seq<char>>
    decreases n,
{
    if n <= 0 {
        Seq::empty()
    } else {
        let rest = distinct_versions(bs, n - 1);
        if rest.contains(bs[n - 1].version) {
            rest
        } else {
            rest.push(bs[n - 1].version)
        }
    }
}

/// Durable status of a game whose download validated.
pub open spec fn completion_status_spec(
    version_name: Seq<char>,
    install_dir: Seq<char>,
    setup_command: Seq<char>,
    r: GameDownloadStatus,
) -> bool {
    if setup_command.len() == 0 {
        r matches GameDownloadStatus::Installed { version_name: v, install_dir: d }
            && v@ == version_name && d@ == install_dir
    } else {
        r matches GameDownloadStatus::SetupRequired { version_name: v, install_dir: d }
            && v@ == version_name && d@ == install_dir
    }
}

/// Bytes a download still needs: the lengths of the chunks not recorded
/// complete, capped at `u64::MAX`.
pub fn required_space(manifest: &Vec<ManifestEntry>, contexts: &CompletionMap) -> (r: u64)
    requires
        manifest_wf(manifest_view(manifest@)),
        contexts.wf(),
    ensures
        r as int == required_space_spec(manifest_view(manifest@), contexts@),
{
    let ghost mv = manifest_view(manifest@);
    let mut total: u64 = 0;
    let mut k: usize = 0;
    while k < manifest.len()
        invariant
            k <= manifest@.len(),
            mv == manifest_view(manifest@),
            manifest_wf(mv),
            contexts.wf(),
            total as int == (if manifest_pending(mv, contexts@, k as int) > u64::MAX {
                u64::MAX as int
            } else {
                manifest_pending(mv, contexts@, k as int)
            }),
            manifest_pending(mv, contexts@, k as int) >= 0,
        decreases manifest@.len() - k,
    {
        let entry = &manifest[k];
        let ghost e = mv[k as int];
        assert(e == entry@);
        assert(mv[k as int].checksums.len() == mv[k as int].lengths.len());
        let ghost base = manifest_pending(mv, contexts@, k as int);
        let mut j: usize = 0;
        while j < entry.chunk.lengths.len()
            invariant
                j <= e.lengths.len(),
                e == entry@,
                e.checksums.len() == e.lengths.len(),
                contexts.wf(),
                base >= 0,
                file_pending(e, contexts@, j as int) >= 0,
                total as int == (if base + file_pending(e, contexts@, j as int) > u64::MAX {
                    u64::MAX as int
                } else {
                    base + file_pending(e, contexts@, j as int)
                }),
            decreases e.lengths.len() - j,
        {
            if !contexts.get(&entry.chunk.checksums[j]) {
                total = total.saturating_add(entry.chunk.lengths[j] as u64);
            }
            j = j + 1;
        }
        k = k + 1;
    }
    total
}

/// Distinct versions of a bucket list, in order of first appearance.
pub fn bucket_versions(buckets: &Vec<DownloadBucket>) -> (r: Vec<String>)
    ensures
        strings_view(r@) == distinct_versions(buckets_view(buckets@), buckets@.len() as int),
{
    let ghost bv = buckets_view(buckets@);
    let mut r: Vec<String> = Vec::new();
    let mut i: usize = 0;
    while i < buckets.len()
        invariant
            i <= buckets@.len(),
            bv == buckets_view(buckets@),
            strings_view(r@) == distinct_versions(bv, i as int),
        decreases buckets@.len() - i,
    {
        let v = &buckets[i].version;
        let mut found = false;
        let mut t: usize = 0;
        while t < r.len()
            invariant
                t <= r@.len(),
                found == exists|u: int| 0 <= u < t && r@[u]@ == v@,
            decreases r@.len() - t,
        {
            if r[t] == *v {
                found = true;
            }
            t = t + 1;
        }
        assert(found == strings_view(r@).contains(bv[i as int].version)) by {
            if found {
                let u = choose|u: int| 0 <= u < t && r@[u]@ == v@;
                assert(strings_view(r@)[u] == v@);
            }
            if strings_view(r@).contains(bv[i as int].version) {
                let u = choose|u: int| 0 <= u < strings_view(r@).len() && strings_view(r@)[u] == bv[i as int].version;
                assert(r@[u]@ == v@);
            }
        }
        if !found {
            let ghost before = r@;
            r.push(v.clone());
            assert(strings_view(r@) =~= strings_view(before).push(v@));
        }
        i = i + 1;
    }
    r
}

/// The completion map over exactly the hashes of the buckets' drops, each
/// taken from `source`.
pub fn contexts_for(buckets: &Vec<DownloadBucket>, source: &CompletionMap) -> (r: CompletionMap)
    requires
        source.wf(),
    ensures
        r.wf(),
        r@ == restrict_to(flat_drops(buckets_view(buckets@)), source@),
{
    let ghost bv = buckets_view(buckets@);
    let mut r = CompletionMap::new();
    let mut b: usize = 0;
    assert(flat_drops(bv.subrange(0, 0)) =~= Seq::<DropView>::empty());
    while b < buckets.len()
        invariant
            b <= buckets@.len(),
            bv == buckets_view(buckets@),
            source.wf(),
            r.wf(),
            r@ == restrict_to(flat_drops(bv.subrange(0, b as int)), source@),
        decreases buckets@.len() - b,
    {
        let drops = &buckets[b].drops;
        let ghost dv = drops_view(drops@);
        let ghost done = flat_drops(bv.subrange(0, b as int));
        assert(dv == bv[b as int].drops);
        let mut i: usize = 0;
        assert(done + dv.subrange(0, 0) =~= done);
        while i < drops.len()
            invariant
                i <= drops@.len(),
                dv == drops_view(drops@),
                source.wf(),
                r.wf(),
                r@ == restrict_to(done + dv.subrange(0, i as int), source@),
            decreases drops@.len() - i,
        {
            let h = drops[i].checksum.clone();
            let v = source.get(&h);
            r.set(h, v);
            assert((done + dv.subrange(0, i as int + 1)).drop_last() =~= done + dv.subrange(0, i as int));
            i = i + 1;
        }
        assert(bv.subrange(0, b as int + 1).drop_last() =~= bv.subrange(0, b as int));
        assert(dv.subrange(0, i as int) =~= dv);
        b = b + 1;
    }
    assert(bv.subrange(0, b as int) =~= bv);
    r
}

/// The durable status of a game whose download validated: installed, or
/// waiting for its setup command when it has one.
pub fn completion_status(version_name: String, install_dir: String, setup_command: &String) -> (r: GameDownloadStatus)
    ensures
        completion_status_spec(version_name@, install_dir@, setup_command@, r),
{
    if setup_command.as_str().is_empty() {
        GameDownloadStatus::Installed { version_name, install_dir }
    } else {
        GameDownloadStatus::SetupRequired { version_name, install_dir }
    }
}

/// Attempts a chunk worker makes at one bucket.
pub const RETRY_COUNT: usize = 3;

/// What a chunk worker does after one attempt at its bucket.
pub enum WorkerAction {
    /// Record every drop of the bucket as complete and finish.
    MarkComplete,
    /// The run was stopped: finish without recording anything.
    Abort,
    /// Try the bucket again.
    Retry,
    /// Post the error to the manager and finish.
    Report(ApplicationDownloadError),
}

/// The decision after attempt `attempt` (counted from zero) ended with
/// `outcome`: `Ok(true)` for a complete bucket, `Ok(false)` for a stop.
/// Transient errors are retried until `RETRY_COUNT` attempts are spent.
pub fn worker_next(attempt: usize, outcome: Result<bool, ApplicationDownloadError>) -> (r: WorkerAction)
    ensures
        outcome matches Ok(true) ==> r is MarkComplete,
        outcome matches Ok(false) ==> r is Abort,
        outcome matches Err(e) ==> (if crate::types::is_retryable_spec(e) && attempt + 1 < RETRY_COUNT {
            r is Retry
        } else {
            r == WorkerAction::Report(e)
        }),
{
    match outcome {
        Ok(true) => WorkerAction::MarkComplete,
        Ok(false) => WorkerAction::Abort,
        Err(e) => {
            if e.is_retryable() && attempt < RETRY_COUNT - 1 {
                WorkerAction::Retry
            } else {
                WorkerAction::Report(e)
            }
        },
    }
}

/// The phase a download's worker is in.
#[derive(Clone, Copy, Debug, PartialEq, Eq, Structural)]
pub enum RunPhase {
    Download,
    Validate,
}

/// What a download's worker does after a phase ends.
pub enum RunStep {
    /// Validate what was downloaded.
    Validate,
    /// Download again what validation found bad.
    Download,
    /// Record the install and post `Completed` to the manager.
    Complete,
    /// The run was stopped or left work undone: end without a signal.
    Exit,
    /// Post the error to the manager and end.
    Fail(ApplicationDownloadError),
}

/// The decision after `phase` ended with `outcome`, with the run's control
/// flag at `flag`. A download that finishes moves on to validation unless
/// the run was stopped; a validation that passes completes the download, one
/// that fails sends it back to downloading; any error ends the run.
pub fn run_next(phase: RunPhase, outcome: Result<bool, ApplicationDownloadError>, flag: DownloadThreadControlFlag) -> (r: RunStep)
    ensures
        outcome matches Err(e) ==> r == RunStep::Fail(e),
        outcome matches Ok(done) ==> (if flag == DownloadThreadControlFlag::Stop || (phase == RunPhase::Download && !done) {
            r is Exit
        } else if phase == RunPhase::Download {
            r is Validate
        } else if done {
            r is Complete
        } else {
            r is Download
        }),
{
    match outcome {
        Err(e) => RunStep::Fail(e),
        Ok(done) => {
            let stopped = match flag {
                DownloadThreadControlFlag::Stop => true,
                _ => false,
            };
            match phase {
                RunPhase::Download => if stopped || !done {
                    RunStep::Exit
                } else {
                    RunStep::Validate
                },
                RunPhase::Validate => if stopped {
                    RunStep::Exit
                } else if done {
                    RunStep::Complete
                } else {
                    RunStep::Download
                },
            }
        },
    }
}

pub open spec fn pending_view(v: Seq<(usize, DownloadBucket)>) -> Seq<(int, BucketView)> {
    v.map_values(|p: (usize, DownloadBucket)| (p.0 as int, p.1@))
}

/// Downloads one game version.
pub struct GameDownloadAgent {
    id: String,
    version: String,
    control_flag: DownloadThreadControl,
    buckets: Vec<DownloadBucket>,
    context_map: CompletionMap,
    manifest: Option<Vec<ManifestEntry>>,
    progress: ProgressObject,
    dropdata: DropData,
    status: DownloadStatus,
}

impl GameDownloadAgent {
    pub closed spec fn wf(&self) -> bool {
        &&& self.context_map.wf()
        &&& self.dropdata.wf()
        &&& self.progress.wf()
        &&& (self.manifest matches Some(m) ==> manifest_wf(manifest_view(m@)))
    }

    pub closed spec fn id_spec(&self) -> String {
        self.id
    }

    pub closed spec fn version_spec(&self) -> String {
        self.version
    }

    pub closed spec fn control_flag_spec(&self) -> DownloadThreadControl {
        self.control_flag
    }

    pub closed spec fn progress_spec(&self) -> ProgressObject {
        self.progress
    }

    pub closed spec fn dropdata_spec(&self) -> DropData {
        self.dropdata
    }

    pub fn id(&self) -> (r: &String)
        ensures
            *r == self.id_spec(),
    {
        &self.id
    }

    pub fn version(&self) -> (r: &String)
        ensures
            *r == self.version_spec(),
    {
        &self.version
    }

    /// The manifest the agent was made with.
    pub fn manifest(&self) -> (r: Option<&Vec<ManifestEntry>>)
        ensures
            match r {
                Some(m) => self.manifest_spec() == Some(manifest_view(m@)),
                None => self.manifest_spec() is None,
            },
    {
        match &self.manifest {
            Some(m) => Some(m),
            None => None,
        }
    }

    /// The planned buckets.
    pub fn buckets(&self) -> (r: &Vec<DownloadBucket>)
        ensures
            buckets_view(r@) == self.buckets_spec(),
    {
        &self.buckets
    }

    /// The per-download record, to persist.
    pub fn dropdata(&self) -> (r: &DropData)
        ensures
            *r == self.dropdata_spec(),
    {
        &self.dropdata
    }

    pub fn progress(&self) -> (r: &ProgressObject)
        ensures
            *r == self.progress_spec(),
    {
        &self.progress
    }

    pub fn control_flag(&self) -> (r: DownloadThreadControlFlag)
        ensures
            r == self.control_flag_spec().value(),
    {
        self.control_flag.get()
    }

    pub fn set_control_flag(&mut self, flag: DownloadThreadControlFlag)
        requires
            old(self).wf(),
        ensures
            final(self).wf(),
            final(self).control_flag_spec().value() == flag,
            final(self).buckets_spec() == old(self).buckets_spec(),
            final(self).context_map_spec() == old(self).context_map_spec(),
            final(self).dropdata_spec() == old(self).dropdata_spec(),
    {
        self.control_flag.set(flag);
    }

    /// Counts downloaded bytes on a bucket's counter; see `ProgressObject::add`.
    pub fn add_progress(&mut self, index: usize, amount: usize, now: u64) -> (r: Vec<crate::manager::DownloadManagerSignal>)
        requires
            old(self).wf(),
        ensures
            final(self).wf(),
            index < old(self).progress_spec().counters().len() ==> final(self).progress_spec().counters()
                == old(self).progress_spec().counters().update(
                index as int,
                (old(self).progress_spec().counters()[index as int] + crate::progress::capped(
                    amount as int,
                    old(self).progress_spec().sum_spec(),
                    old(self).progress_spec().max_spec(),
                )) as usize,
            ),
            index >= old(self).progress_spec().counters().len() ==> final(self).progress_spec() == old(self).progress_spec() && r@.len() == 0,
            final(self).buckets_spec() == old(self).buckets_spec(),
            final(self).context_map_spec() == old(self).context_map_spec(),
            final(self).dropdata_spec() == old(self).dropdata_spec(),
    {
        if index < self.progress.size() {
            self.progress.add(index, amount, now)
        } else {
            Vec::new()
        }
    }

    pub closed spec fn buckets_spec(&self) -> Seq<BucketView> {
        buckets_view(self.buckets@)
    }

    /// Completion map of the current run.
    pub closed spec fn context_map_spec(&self) -> Map<Seq<char>, bool> {
        self.context_map@
    }

    pub closed spec fn manifest_spec(&self) -> Option<Seq<EntryView>> {
        match self.manifest {
            Some(m) => Some(manifest_view(m@)),
            None => None,
        }
    }

    pub closed spec fn status_spec(&self) -> DownloadStatus {
        self.status
    }

    /// An agent for a fetched manifest and the completion pairs stored for
    /// this download. Fails with `DiskFull(required, available)` exactly when
    /// the chunks not yet complete need more than `available` bytes; no bucket
    /// exists before the first run.
    pub fn new(
        id: String,
        version: String,
        base_path: String,
        manifest: Vec<ManifestEntry>,
        stored: &Vec<(String, bool)>,
        available: u64,
        now: u64,
    ) -> (r: Result<GameDownloadAgent, ApplicationDownloadError>)
        requires
            manifest_wf(manifest_view(manifest@)),
        ensures
            ({
                let req = required_space_spec(manifest_view(manifest@), pairs_map(stored@));
                &&& (r is Err <==> req > available)
                &&& (r matches Err(e) ==> e == ApplicationDownloadError::DiskFull(req as u64, available))
                &&& (r matches Ok(a) ==> {
                    &&& a.wf()
                    &&& a.id_spec()@ == id@
                    &&& a.version_spec()@ == version@
                    &&& a.dropdata_spec().base_path@ == base_path@
                    &&& a.dropdata_spec().contexts() == pairs_map(stored@)
                    &&& a.manifest_spec() == Some(manifest_view(manifest@))
                    &&& a.buckets_spec().len() == 0
                    &&& a.status_spec() == DownloadStatus::Queued
                    &&& a.control_flag_spec().value() == DownloadThreadControlFlag::Stop
                })
            }),
    {
        let dropdata = DropData::generate(id.clone(), version.clone(), base_path, stored);
        let required = required_space(&manifest, &dropdata.contexts);
        if required > available {
            return Err(ApplicationDownloadError::DiskFull(required, available));
        }
        Ok(GameDownloadAgent {
            id,
            version,
            control_flag: DownloadThreadControl::new(DownloadThreadControlFlag::Stop),
            buckets: Vec::new(),
            context_map: CompletionMap::new(),
            manifest: Some(manifest),
            progress: ProgressObject::new(0, 0, now),
            dropdata,
            status: DownloadStatus::Queued,
        })
    }

    pub fn check_manifest_exists(&self) -> (r: bool)
        ensures
            r == self.manifest_spec() is Some,
    {
        self.manifest.is_some()
    }

    pub fn status(&self) -> (r: DownloadStatus)
        ensures
            r == self.status_spec(),
    {
        self.status
    }

    pub fn set_status(&mut self, status: DownloadStatus)
        requires
            old(self).wf(),
        ensures
            final(self).wf(),
            final(self).status_spec() == status,
            final(self).buckets_spec() == old(self).buckets_spec(),
            final(self).context_map_spec() == old(self).context_map_spec(),
            final(self).dropdata_spec() == old(self).dropdata_spec(),
    {
        self.status = status;
    }

    /// Key of this download.
    pub fn metadata(&self) -> (r: DownloadableMetadata)
        ensures
            r.id@ == self.id_spec()@,
            r.version matches Some(v) && v@ == self.version_spec()@,
            r.download_type == DownloadType::Game,
    {
        DownloadableMetadata { id: self.id.clone(), version: Some(self.version.clone()), download_type: DownloadType::Game }
    }

    /// Plans the buckets on first use, recording every chunk hash of the plan
    /// (complete only if it was complete before, other hashes dropped), then
    /// loads the run's completion map from the record.
    pub fn ensure_buckets(&mut self) -> (r: Result<(), ApplicationDownloadError>)
        requires
            old(self).wf(),
        ensures
            final(self).wf(),
            r is Err <==> (old(self).buckets_spec().len() == 0 && old(self).manifest_spec() is None),
            r matches Err(e) ==> e == ApplicationDownloadError::NotInitialized,
            r is Err ==> final(self).buckets_spec() == old(self).buckets_spec()
                && final(self).dropdata_spec().contexts() == old(self).dropdata_spec().contexts(),
            r is Ok ==> {
                &&& (old(self).buckets_spec().len() == 0 ==> {
                    &&& final(self).buckets_spec() == plan(old(self).manifest_spec()->Some_0, old(self).id_spec()@)
                    &&& final(self).dropdata_spec().contexts() == restrict_to(
                        flat_drops(final(self).buckets_spec()),
                        old(self).dropdata_spec().contexts(),
                    )
                })
                &&& (old(self).buckets_spec().len() > 0 ==> {
                    &&& final(self).buckets_spec() == old(self).buckets_spec()
                    &&& final(self).dropdata_spec().contexts() == old(self).dropdata_spec().contexts()
                })
                &&& final(self).context_map_spec() == final(self).dropdata_spec().contexts()
            },
            final(self).manifest_spec() == old(self).manifest_spec(),
            final(self).id_spec() == old(self).id_spec(),
            final(self).progress_spec() == old(self).progress_spec(),
    {
        if self.buckets.len() == 0 {
            match &self.manifest {
                None => return Err(ApplicationDownloadError::NotInitialized),
                Some(m) => {
                    let buckets = generate_buckets(&self.id, m);
                    let refreshed = contexts_for(&buckets, &self.dropdata.contexts);
                    self.dropdata.contexts = refreshed;
                    self.buckets = buckets;
                },
            }
        }
        self.context_map = self.dropdata.get_contexts();
        Ok(())
    }

    /// Sets the progress total to the bytes of all drops and gives every
    /// drop a counter (both capped at `usize::MAX`), then zeroes them.
    pub fn setup_progress(&mut self, now: u64)
        requires
            old(self).wf(),
        ensures
            final(self).wf(),
            final(self).progress_spec().max_spec() == (if crate::planner::drops_size(flat_drops(old(self).buckets_spec())) > usize::MAX {
                usize::MAX as int
            } else {
                crate::planner::drops_size(flat_drops(old(self).buckets_spec()))
            }),
            final(self).progress_spec().counters().len() == (if flat_drops(old(self).buckets_spec()).len() > usize::MAX {
                usize::MAX as int
            } else {
                flat_drops(old(self).buckets_spec()).len() as int
            }),
            final(self).progress_spec().sum_spec() == 0,
            final(self).buckets_spec() == old(self).buckets_spec(),
            final(self).context_map_spec() == old(self).context_map_spec(),
            final(self).dropdata_spec() == old(self).dropdata_spec(),
    {
        let ghost bv = buckets_view(self.buckets@);
        let mut total: usize = 0;
        let mut count: usize = 0;
        let mut b: usize = 0;
        assert(flat_drops(bv.subrange(0, 0)) =~= Seq::<DropView>::empty());
        while b < self.buckets.len()
            invariant
                b <= self.buckets@.len(),
                bv == buckets_view(self.buckets@),
                crate::planner::drops_size(flat_drops(bv.subrange(0, b as int))) >= 0,
                total as int == (if crate::planner::drops_size(flat_drops(bv.subrange(0, b as int))) > usize::MAX {
                    usize::MAX as int
                } else {
                    crate::planner::drops_size(flat_drops(bv.subrange(0, b as int)))
                }),
                count as int == (if flat_drops(bv.subrange(0, b as int)).len() > usize::MAX {
                    usize::MAX as int
                } else {
                    flat_drops(bv.subrange(0, b as int)).len() as int
                }),
            decreases self.buckets@.len() - b,
        {
            let drops = &self.buckets[b].drops;
            let ghost dv = drops_view(drops@);
            let ghost done = flat_drops(bv.subrange(0, b as int));
            assert(dv == bv[b as int].drops);
            let mut i: usize = 0;
            assert(done + dv.subrange(0, 0) =~= done);
            while i < drops.len()
                invariant
                    i <= drops@.len(),
                    dv == drops_view(drops@),
                    crate::planner::drops_size(done + dv.subrange(0, i as int)) >= 0,
                    total as int == (if crate::planner::drops_size(done + dv.subrange(0, i as int)) > usize::MAX {
                        usize::MAX as int
                    } else {
                        crate::planner::drops_size(done + dv.subrange(0, i as int))
                    }),
                    count as int == (if (done + dv.subrange(0, i as int)).len() > usize::MAX {
                        usize::MAX as int
                    } else {
                        (done + dv.subrange(0, i as int)).len() as int
                    }),
                decreases drops@.len() - i,
            {
                total = total.saturating_add(drops[i].length);
                count = count.saturating_add(1);
                assert((done + dv.subrange(0, i as int + 1)).drop_last() =~= done + dv.subrange(0, i as int));
                i = i + 1;
            }
            assert(bv.subrange(0, b as int + 1).drop_last() =~= bv.subrange(0, b as int));
            assert(dv.subrange(0, i as int) =~= dv);
            b = b + 1;
        }
        assert(bv.subrange(0, b as int) =~= bv);
        self.progress.set_size(count);
        self.progress.set_max(total);
        self.progress.reset(now);
    }

    /// The work of a run: every bucket that still has drops to fetch, with
    /// its index and only those drops. The bytes of the drops already
    /// complete are counted as skipped on the bucket's progress counter.
    pub fn plan_run(&mut self) -> (r: Vec<(usize, DownloadBucket)>)
        requires
            old(self).wf(),
        ensures
            final(self).wf(),
            pending_view(r@) == pending_buckets(old(self).buckets_spec(), old(self).context_map_spec(), old(self).buckets_spec().len() as int),
            final(self).buckets_spec() == old(self).buckets_spec(),
            final(self).context_map_spec() == old(self).context_map_spec(),
            final(self).dropdata_spec() == old(self).dropdata_spec(),
            final(self).progress_spec().max_spec() == old(self).progress_spec().max_spec(),
            (old(self).progress_spec().sum_spec() == 0
                && old(self).progress_spec().counters().len() >= old(self).buckets_spec().len()
                && done_bytes(flat_drops(old(self).buckets_spec()), old(self).context_map_spec())
                <= old(self).progress_spec().max_spec()) ==> final(self).progress_spec().sum_spec()
                == done_bytes(flat_drops(old(self).buckets_spec()), old(self).context_map_spec()),
    {
        let ghost bv = buckets_view(self.buckets@);
        let ghost ctx = self.context_map@;
        let ghost exact = self.progress.sum_spec() == 0 && self.progress.counters().len() >= bv.len()
            && done_bytes(flat_drops(bv), ctx) <= self.progress.max_spec();
        let ghost n_counters = self.progress.counters().len();
        let mut r: Vec<(usize, DownloadBucket)> = Vec::new();
        assert(flat_drops(bv.subrange(0, 0)) =~= Seq::<DropView>::empty());
        let mut b: usize = 0;
        while b < self.buckets.len()
            invariant
                b <= self.buckets@.len(),
                bv == buckets_view(self.buckets@),
                ctx == self.context_map@,
                self.wf(),
                pending_view(r@) == pending_buckets(bv, ctx, b as int),
                self.progress.max_spec() == old(self).progress_spec().max_spec(),
                self.progress.counters().len() == n_counters,
                exact ==> n_counters >= bv.len() && done_bytes(flat_drops(bv), ctx) <= self.progress.max_spec(),
                exact ==> self.progress.sum_spec() == done_bytes(flat_drops(bv.subrange(0, b as int)), ctx),
                self.buckets == old(self).buckets,
                self.context_map == old(self).context_map,
                self.dropdata == old(self).dropdata_spec(),
            decreases self.buckets@.len() - b,
        {
            let ghost dv = bv[b as int].drops;
            let ghost pred = pending_pred(ctx);
            let ghost done = flat_drops(bv.subrange(0, b as int));
            proof {
                assert(bv.subrange(0, b as int + 1).drop_last() =~= bv.subrange(0, b as int));
                lemma_flat_prefix(bv, b as int + 1);
            }
            let mut left: Vec<DownloadDrop> = Vec::new();
            let mut i: usize = 0;
            let n = self.buckets[b].drops.len();
            assert(done + dv.subrange(0, 0) =~= done);
            assert(dv.subrange(0, 0).filter(pred) =~= Seq::<DropView>::empty()) by {
                reveal(Seq::filter);
            }
            while i < n
                invariant
                    i <= n,
                    n == dv.len(),
                    bv == buckets_view(self.buckets@),
                    b < self.buckets@.len(),
                    dv == bv[b as int].drops,
                    ctx == self.context_map@,
                    self.wf(),
                    pred == pending_pred(ctx),
                    drops_view(left@) == dv.subrange(0, i as int).filter(pred),
                    self.progress.max_spec() == old(self).progress_spec().max_spec(),
                    self.progress.counters().len() == n_counters,
                    exact ==> n_counters >= bv.len() && done_bytes(flat_drops(bv), ctx) <= self.progress.max_spec(),
                    exact ==> self.progress.sum_spec() == done_bytes(done + dv.subrange(0, i as int), ctx),
                    done == flat_drops(bv.subrange(0, b as int)),
                    flat_drops(bv.subrange(0, b as int + 1)) == done + dv,
                    flat_drops(bv.subrange(0, b as int + 1)).len() <= flat_drops(bv).len(),
                    forall|t: int| 0 <= t < flat_drops(bv.subrange(0, b as int + 1)).len()
                        ==> #[trigger] flat_drops(bv.subrange(0, b as int + 1))[t] == flat_drops(bv)[t],
                    self.buckets == old(self).buckets,
                    self.context_map == old(self).context_map,
                    self.dropdata == old(self).dropdata_spec(),
                decreases n - i,
            {
                let d = &self.buckets[b].drops[i];
                assert(d@ == dv[i as int]);
                let complete = self.context_map.get(&d.checksum);
                let ghost before = left@;
                proof {
                    assert(dv.subrange(0, i as int + 1) =~= dv.subrange(0, i as int).push(dv[i as int]));
                    lemma_filter_push(dv.subrange(0, i as int), dv[i as int], pred);
                }
                assert(d.checksum@ == dv[i as int].checksum);
                assert(is_pending(ctx, dv[i as int]) == !complete);
                assert(pred(dv[i as int]) == !complete);
                let ghost upto = done + dv.subrange(0, i as int + 1);
                proof {
                    assert(upto.drop_last() =~= done + dv.subrange(0, i as int));
                    assert(upto.last() == dv[i as int]);
                    assert(upto.len() == done.len() + i + 1);
                    assert((done + dv).len() == done.len() + dv.len());
                    assert(upto.len() <= flat_drops(bv).len());
                    assert forall|t: int| 0 <= t < upto.len() implies upto[t] == flat_drops(bv)[t] by {
                        if t < done.len() {
                            assert(upto[t] == done[t]);
                            assert((done + dv)[t] == done[t]);
                        } else {
                            assert(upto[t] == dv[t - done.len()]);
                            assert((done + dv)[t] == dv[t - done.len()]);
                        }
                        assert(t < flat_drops(bv.subrange(0, b as int + 1)).len());
                        assert(flat_drops(bv.subrange(0, b as int + 1))[t] == flat_drops(bv)[t]);
                    }
                    assert(upto =~= flat_drops(bv).subrange(0, upto.len() as int));
                    lemma_flat_lengths(bv);
                    lemma_done_bytes_prefix(flat_drops(bv), ctx, upto.len() as int);
                    assert forall|t: int| 0 <= t < (done + dv.subrange(0, i as int)).len() implies #[trigger] (done + dv.subrange(0, i as int))[t].length >= 0 by {
                        assert((done + dv.subrange(0, i as int))[t] == upto[t]);
                    }
                    lemma_done_bytes_nonneg(done + dv.subrange(0, i as int), ctx);
                }
                if complete {
                    let length = d.length;
                    if b < self.progress.size() {
                        self.progress.skip(b, length);
                    }
                } else {
                    left.push(d.duplicate());
                    assert(drops_view(left@) =~= drops_view(before).push(dv[i as int]));
                }
                i = i + 1;
            }
            assert(dv.subrange(0, n as int) =~= dv);
            if left.len() > 0 {
                let src = &self.buckets[b];
                let bucket = DownloadBucket { game_id: src.game_id.clone(), version: src.version.clone(), drops: left };
                let ghost before = r@;
                r.push((b, bucket));
                assert(pending_view(r@) =~= pending_view(before).push((b as int, bucket@)));
            }
            b = b + 1;
        }
        assert(bv.subrange(0, b as int) =~= bv);
        r
    }

    /// Ends a run: records the hashes the workers completed, persists the
    /// completion map of the plan's hashes to the record, and reports whether
    /// every drop is now complete.
    pub fn finish_run(&mut self, completed: &Vec<String>) -> (r: bool)
        requires
            old(self).wf(),
        ensures
            final(self).wf(),
            final(self).context_map_spec() == merge_completed(old(self).context_map_spec(), strings_view(completed@)),
            final(self).dropdata_spec().contexts() == restrict_to(flat_drops(old(self).buckets_spec()), final(self).context_map_spec()),
            r == forall|i: int| 0 <= i < flat_drops(old(self).buckets_spec()).len()
                ==> is_done(final(self).context_map_spec(), #[trigger] flat_drops(old(self).buckets_spec())[i].checksum),
            final(self).buckets_spec() == old(self).buckets_spec(),
            final(self).dropdata_spec().id == old(self).dropdata_spec().id,
            final(self).dropdata_spec().base_path == old(self).dropdata_spec().base_path,
    {
        let mut k: usize = 0;
        while k < completed.len()
            invariant
                k <= completed@.len(),
                self.context_map.wf(),
                self.context_map@ == merge_completed(old(self).context_map@, strings_view(completed@).subrange(0, k as int)),
                self.dropdata == old(self).dropdata,
                self.progress == old(self).progress,
                self.manifest == old(self).manifest,
                self.buckets == old(self).buckets,
                old(self).wf(),
            decreases completed@.len() - k,
        {
            self.context_map.set(completed[k].clone(), true);
            assert(strings_view(completed@).subrange(0, k as int + 1).drop_last() =~= strings_view(completed@).subrange(0, k as int));
            k = k + 1;
        }
        assert(strings_view(completed@).subrange(0, k as int) =~= strings_view(completed@));
        self.dropdata.contexts = contexts_for(&self.buckets, &self.context_map);
        let r = self.all_complete();
        assert(self.buckets_spec() == old(self).buckets_spec());
        r
    }

    fn all_complete(&self) -> (r: bool)
        requires
            self.context_map.wf(),
        ensures
            r == forall|i: int| 0 <= i < flat_drops(self.buckets_spec()).len()
                ==> is_done(self.context_map_spec(), #[trigger] flat_drops(self.buckets_spec())[i].checksum),
    {
        let ghost bv = buckets_view(self.buckets@);
        let ghost ctx = self.context_map@;
        let mut b: usize = 0;
        assert(flat_drops(bv.subrange(0, 0)) =~= Seq::<DropView>::empty());
        while b < self.buckets.len()
            invariant
                b <= self.buckets@.len(),
                bv == buckets_view(self.buckets@),
                ctx == self.context_map@,
                self.context_map.wf(),
                forall|i: int| 0 <= i < flat_drops(bv.subrange(0, b as int)).len()
                    ==> is_done(ctx, #[trigger] flat_drops(bv.subrange(0, b as int))[i].checksum),
            decreases self.buckets@.len() - b,
        {
            let drops = &self.buckets[b].drops;
            let ghost dv = drops_view(drops@);
            let ghost done = flat_drops(bv.subrange(0, b as int));
            assert(bv.len() == self.buckets@.len());
            assert(dv == bv[b as int].drops);
            assert(bv.subrange(0, b as int + 1).drop_last() =~= bv.subrange(0, b as int));
            assert(flat_drops(bv.subrange(0, b as int + 1)) == done + dv);
            let mut i: usize = 0;
            while i < drops.len()
                invariant
                    i <= drops@.len(),
                    dv == drops_view(drops@),
                    ctx == self.context_map@,
                    self.context_map.wf(),
                    forall|t: int| 0 <= t < i ==> is_done(ctx, #[trigger] dv[t].checksum),
                    b < bv.len(),
                    bv == buckets_view(self.buckets@),
                    done == flat_drops(bv.subrange(0, b as int)),
                    flat_drops(bv.subrange(0, b as int + 1)) == done + dv,
                decreases drops@.len() - i,
            {
                assert(drops@[i as int]@ == dv[i as int]);
                if !self.context_map.get(&drops[i].checksum) {
                    proof {
                        lemma_flat_prefix(bv, b as int + 1);
                    }
                    assert(flat_drops(bv)[done.len() + i] == dv[i as int]) by {
                        assert((done + dv)[done.len() + i] == dv[i as int]);
                        assert(flat_drops(bv.subrange(0, b as int + 1))[done.len() + i] == dv[i as int]);
                    }
                    assert(bv == self.buckets_spec());
                    assert(!is_done(ctx, flat_drops(bv)[done.len() + i].checksum));
                    return false;
                }
                i = i + 1;
            }
            assert forall|t: int| 0 <= t < (done + dv).len() implies is_done(ctx, #[trigger] (done + dv)[t].checksum) by {
                if t >= done.len() {
                    assert((done + dv)[t] == dv[t - done.len()]);
                } else {
                    assert((done + dv)[t] == done[t]);
                }
            }
            b = b + 1;
        }
        assert(bv.subrange(0, b as int) =~= bv);
        true
    }

    /// Applies a validation: every hash whose bytes did not match is recorded
    /// incomplete. True when nothing was invalid.
    pub fn apply_validation(&mut self, invalid: &Vec<String>) -> (r: bool)
        requires
            old(self).wf(),
        ensures
            final(self).wf(),
            final(self).dropdata_spec().contexts() == mark_invalid(old(self).dropdata_spec().contexts(), strings_view(invalid@)),
            r == (invalid@.len() == 0),
            final(self).buckets_spec() == old(self).buckets_spec(),
            final(self).context_map_spec() == old(self).context_map_spec(),
    {
        let mut k: usize = 0;
        while k < invalid.len()
            invariant
                k <= invalid@.len(),
                self.dropdata.wf(),
                self.dropdata.contexts() == mark_invalid(old(self).dropdata_spec().contexts(), strings_view(invalid@).subrange(0, k as int)),
                self.context_map == old(self).context_map,
                self.buckets == old(self).buckets,
                self.progress == old(self).progress_spec(),
                self.manifest == old(self).manifest,
            decreases invalid@.len() - k,
        {
            self.dropdata.set_context(invalid[k].clone(), false);
            assert(strings_view(invalid@).subrange(0, k as int + 1).drop_last() =~= strings_view(invalid@).subrange(0, k as int));
            k = k + 1;
        }
        assert(strings_view(invalid@).subrange(0, k as int) =~= strings_view(invalid@));
        invalid.len() == 0
    }
}

proof fn lemma_filter_push(s: Seq<DropView>, x: DropView, p: spec_fn(DropView) -> bool)
    ensures
        s.push(x).filter(p) == (if p(x) {
            s.filter(p).push(x)
        } else {
            s.filter(p)
        }),
{
    reveal(Seq::filter);
    assert(s.push(x).drop_last() =~= s);
}

proof fn lemma_flat_lengths(bs: Seq<BucketView>)
    requires
        forall|b: int, i: int| 0 <= b < bs.len() && 0 <= i < bs[b].drops.len() ==> #[trigger] bs[b].drops[i].length >= 0,
    ensures
        forall|i: int| 0 <= i < flat_drops(bs).len() ==> #[trigger] flat_drops(bs)[i].length >= 0,
    decreases bs.len(),
{
    if bs.len() > 0 {
        let p = bs.drop_last();
        assert forall|b: int, i: int| 0 <= b < p.len() && 0 <= i < p[b].drops.len() implies #[trigger] p[b].drops[i].length >= 0 by {
            assert(p[b] == bs[b]);
        }
        lemma_flat_lengths(p);
        let f = flat_drops(bs);
        assert forall|i: int| 0 <= i < f.len() implies #[trigger] f[i].length >= 0 by {
            if i >= flat_drops(p).len() {
                assert(f[i] == bs.last().drops[i - flat_drops(p).len()]);
                assert(bs[bs.len() - 1].drops[i - flat_drops(p).len()].length >= 0);
            }
        }
    }
}

proof fn lemma_done_bytes_nonneg(ds: Seq<DropView>, ctx: Map<Seq<char>, bool>)
    requires
        forall|i: int| 0 <= i < ds.len() ==> #[trigger] ds[i].length >= 0,
    ensures
        done_bytes(ds, ctx) >= 0,
    decreases ds.len(),
{
    if ds.len() > 0 {
        lemma_done_bytes_nonneg(ds.drop_last(), ctx);
    }
}

proof fn lemma_done_bytes_prefix(ds: Seq<DropView>, ctx: Map<Seq<char>, bool>, j: int)
    requires
        0 <= j <= ds.len(),
        forall|i: int| 0 <= i < ds.len() ==> #[trigger] ds[i].length >= 0,
    ensures
        done_bytes(ds.subrange(0, j), ctx) <= done_bytes(ds, ctx),
    decreases ds.len() - j,
{
    if j < ds.len() {
        lemma_done_bytes_prefix(ds, ctx, j + 1);
        assert(ds.subrange(0, j + 1).drop_last() =~= ds.subrange(0, j));
    } else {
        assert(ds.subrange(0, j) =~= ds);
    }
}

/// `flat_drops` of a prefix is a prefix of `flat_drops`.
pub proof fn lemma_flat_prefix(bs: Seq<BucketView>, n: int)
    requires
        0 <= n <= bs.len(),
    ensures
        flat_drops(bs.subrange(0, n)).len() <= flat_drops(bs).len(),
        forall|i: int| 0 <= i < flat_drops(bs.subrange(0, n)).len() ==> #[trigger] flat_drops(bs.subrange(0, n))[i] == flat_drops(bs)[i],
    decreases bs.len() - n,
{
    if n < bs.len() {
        lemma_flat_prefix(bs, n + 1);
        assert(bs.subrange(0, n + 1).drop_last() =~= bs.subrange(0, n));
        let a = flat_drops(bs.subrange(0, n));
        assert(flat_drops(bs.subrange(0, n + 1)) == a + bs.subrange(0, n + 1).last().drops);
        assert forall|i: int| 0 <= i < a.len() implies #[trigger] a[i] == flat_drops(bs)[i] by {
            assert(flat_drops(bs.subrange(0, n + 1))[i] == a[i]);
        }
    } else {
        assert(bs.subrange(0, n) =~= bs);
    }
}

proof fn lemma_merge_completed(m: Map<Seq<char>, bool>, hs: Seq<Seq<char>>, h: Seq<char>)
    ensures
        is_done(merge_completed(m, hs), h) == (hs.contains(h) || is_done(m, h)),
        merge_completed(m, hs).contains_key(h) == (hs.contains(h) || m.contains_key(h)),
    decreases hs.len(),
{
    if hs.len() > 0 {
        lemma_merge_completed(m, hs.drop_last(), h);
        if hs.drop_last().contains(h) {
            let t = choose|t: int| 0 <= t < hs.drop_last().len() && hs.drop_last()[t] == h;
            assert(hs[t] == h);
        }
        if hs.contains(h) && hs.last() != h {
            let t = choose|t: int| 0 <= t < hs.len() && hs[t] == h;
            assert(hs.drop_last()[t] == h);
        }
        if hs.last() == h {
            assert(hs[hs.len() - 1] == h);
        }
    }
}

/// Whether some drop of `ds` has hash `h`.
pub open spec fn has_hash(ds: Seq<DropView>, h: Seq<char>) -> bool {
    exists|i: int| 0 <= i < ds.len() && #[trigger] ds[i].checksum == h
}

proof fn lemma_restrict_to(ds: Seq<DropView>, src: Map<Seq<char>, bool>, h: Seq<char>)
    ensures
        restrict_to(ds, src).contains_key(h) == has_hash(ds, h),
        restrict_to(ds, src).contains_key(h) ==> restrict_to(ds, src)[h] == is_done(src, h),
    decreases ds.len(),
{
    if ds.len() > 0 {
        let p = ds.drop_last();
        lemma_restrict_to(p, src, h);
        if has_hash(p, h) {
            let t = choose|t: int| 0 <= t < p.len() && p[t].checksum == h;
            assert(ds[t].checksum == h);
        }
        if has_hash(ds, h) && ds.last().checksum != h {
            let t = choose|t: int| 0 <= t < ds.len() && ds[t].checksum == h;
            assert(p[t].checksum == h);
        }
        if ds.last().checksum == h {
            assert(ds[ds.len() - 1].checksum == h);
        }
    }
}

/// After a run ends, every hash that a worker completed and that the plan
/// holds is recorded complete in the record that is written to disk.
pub proof fn lemma_completed_chunks_recorded(
    bs: Seq<BucketView>,
    ctx: Map<Seq<char>, bool>,
    completed: Seq<Seq<char>>,
    h: Seq<char>,
)
    requires
        completed.contains(h),
        has_hash(flat_drops(bs), h),
    ensures
        is_done(restrict_to(flat_drops(bs), merge_completed(ctx, completed)), h),
{
    lemma_merge_completed(ctx, completed, h);
    lemma_restrict_to(flat_drops(bs), merge_completed(ctx, completed), h);
}

/// Pausing a run after it completed the hashes `first`, and resuming from
/// the record it persisted until the hashes `second` complete, leaves the
/// same record as one uninterrupted run that completed both.
pub proof fn lemma_pause_resume_same_record(
    bs: Seq<BucketView>,
    ctx: Map<Seq<char>, bool>,
    first: Seq<Seq<char>>,
    second: Seq<Seq<char>>,
)
    ensures
        restrict_to(
            flat_drops(bs),
            merge_completed(restrict_to(flat_drops(bs), merge_completed(ctx, first)), second),
        ) == restrict_to(flat_drops(bs), merge_completed(ctx, first + second)),
{
    let ds = flat_drops(bs);
    let paused = restrict_to(ds, merge_completed(ctx, first));
    let a = restrict_to(ds, merge_completed(paused, second));
    let b = restrict_to(ds, merge_completed(ctx, first + second));
    assert forall|h: Seq<char>| #[trigger] a.contains_key(h) == b.contains_key(h) by {
        lemma_pause_resume_at(ds, ctx, first, second, h);
    }
    assert forall|h: Seq<char>| #[trigger] a.contains_key(h) implies a[h] == b[h] by {
        lemma_pause_resume_at(ds, ctx, first, second, h);
    }
    assert(a =~= b);
}

proof fn lemma_pause_resume_at(
    ds: Seq<DropView>,
    ctx: Map<Seq<char>, bool>,
    first: Seq<Seq<char>>,
    second: Seq<Seq<char>>,
    h: Seq<char>,
)
    ensures
        ({
            let paused = restrict_to(ds, merge_completed(ctx, first));
            let a = restrict_to(ds, merge_completed(paused, second));
            let b = restrict_to(ds, merge_completed(ctx, first + second));
            &&& a.contains_key(h) == b.contains_key(h)
            &&& a.contains_key(h) ==> a[h] == b[h]
        }),
{
    let paused = restrict_to(ds, merge_completed(ctx, first));
    lemma_restrict_to(ds, merge_completed(paused, second), h);
    lemma_restrict_to(ds, merge_completed(ctx, first + second), h);
    lemma_restrict_to(ds, merge_completed(ctx, first), h);
    lemma_merge_completed(paused, second, h);
    lemma_merge_completed(ctx, first, h);
    lemma_merge_completed(ctx, first + second, h);
    if (first + second).contains(h) {
        let t = choose|t: int| 0 <= t < (first + second).len() && (first + second)[t] == h;
        if t < first.len() {
            assert(first[t] == h);
        } else {
            assert(second[t - first.len()] == h);
        }
    }
    if first.contains(h) {
        let t = choose|t: int| 0 <= t < first.len() && first[t] == h;
        assert((first + second)[t] == h);
    }
    if second.contains(h) {
        let t = choose|t: int| 0 <= t < second.len() && second[t] == h;
        assert((first + second)[first.len() + t] == h);
    }
}

/// A run restarted from the record of an interrupted run fetches exactly the
/// drops that were neither complete before nor completed by the interrupted
/// run.
pub proof fn lemma_restart_fetches_remaining(
    bs: Seq<BucketView>,
    ctx: Map<Seq<char>, bool>,
    completed: Seq<Seq<char>>,
    i: int,
)
    requires
        0 <= i < flat_drops(bs).len(),
    ensures
        is_pending(restrict_to(flat_drops(bs), merge_completed(ctx, completed)), flat_drops(bs)[i])
            == (!completed.contains(flat_drops(bs)[i].checksum) && !is_done(ctx, flat_drops(bs)[i].checksum)),
{
    let h = flat_drops(bs)[i].checksum;
    lemma_restrict_to(flat_drops(bs), merge_completed(ctx, completed), h);
    lemma_merge_completed(ctx, completed, h);
    assert(has_hash(flat_drops(bs), h));
}

/// Bytes of the drops of `ds` that `ctx` records complete.
pub open spec fn done_bytes(ds: Seq<DropView>, ctx: Map<Seq<char>, bool>) -> int
    decreases ds.len(),
{
    if ds.len() == 0 {
        0
    } else {
        done_bytes(ds.drop_last(), ctx) + if is_done(ctx, ds.last().checksum) {
            ds.last().length
        } else {
            0
        }
    }
}

/// When every drop has bytes, the completed bytes reach the total exactly
/// when every drop is recorded complete.
pub proof fn lemma_progress_full_iff_complete(ds: Seq<DropView>, ctx: Map<Seq<char>, bool>)
    requires
        forall|i: int| 0 <= i < ds.len() ==> #[trigger] ds[i].length > 0,
    ensures
        done_bytes(ds, ctx) <= crate::planner::drops_size(ds),
        (done_bytes(ds, ctx) == crate::planner::drops_size(ds)) == (forall|i: int|
            0 <= i < ds.len() ==> is_done(ctx, #[trigger] ds[i].checksum)),
    decreases ds.len(),
{
    if ds.len() > 0 {
        let p = ds.drop_last();
        assert forall|i: int| 0 <= i < p.len() implies #[trigger] p[i].length > 0 by {
            assert(p[i] == ds[i]);
        }
        lemma_progress_full_iff_complete(p, ctx);
        assert(ds[ds.len() - 1].length > 0);
        if forall|i: int| 0 <= i < ds.len() ==> is_done(ctx, #[trigger] ds[i].checksum) {
            assert forall|i: int| 0 <= i < p.len() implies is_done(ctx, #[trigger] p[i].checksum) by {
                assert(p[i] == ds[i]);
            }
            assert(is_done(ctx, ds[ds.len() - 1].checksum));
        }
        if done_bytes(ds, ctx) == crate::planner::drops_size(ds) {
            assert forall|i: int| 0 <= i < ds.len() implies is_done(ctx, #[trigger] ds[i].checksum) by {
                if i < p.len() {
                    assert(p[i] == ds[i]);
                }
            }
        }
    }
}

} // verus!
