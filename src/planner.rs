//! Partitioning of a manifest into size- and count-bounded buckets.

use vstd::prelude::*;
use vstd::multiset::Multiset;
use crate::rolling::{seq_sum, lemma_sum_prefix_step};

verus! {

/// Byte budget of one bucket.
pub const TARGET_BUCKET_SIZE: usize = 63000000;

/// Most drops that one bucket holds.
pub const MAX_FILES_PER_BUCKET: usize = 255;

/// Chunk list of one file of a manifest.
pub struct ChunkData {
    pub lengths: Vec<usize>,
    pub checksums: Vec<String>,
    pub permissions: u32,
    pub version_name: String,
}

/// One file of a manifest: its path relative to the install directory and its chunks.
pub struct ManifestEntry {
    pub path: String,
    pub chunk: ChunkData,
}

/// One chunk assigned to a worker: a byte range of one file.
pub struct DownloadDrop {
    pub filename: String,
    pub start: usize,
    pub length: usize,
    pub checksum: String,
    pub permissions: u32,
    pub index: usize,
}

/// The unit of work of one worker.
pub struct DownloadBucket {
    pub game_id: String,
    pub version: String,
    pub drops: Vec<DownloadDrop>,
}

pub struct EntryView {
    pub path: Seq<char>,
    pub lengths: Seq<usize>,
    pub checksums: Seq<Seq<char>>,
    pub permissions: u32,
    pub version: Seq<char>,
}

pub struct DropView {
    pub filename: Seq<char>,
    pub start: int,
    pub length: int,
    pub checksum: Seq<char>,
    pub permissions: u32,
    pub index: int,
}

pub struct BucketView {
    pub game_id: Seq<char>,
    pub version: Seq<char>,
    pub drops: Seq<DropView>,
}

pub struct AccView {
    pub version: Seq<char>,
    pub drops: Seq<DropView>,
    pub size: int,
}

/// Buckets emitted so far and the open accumulator of each version, in order of first use.
pub struct PlanState {
    pub buckets: Seq<BucketView>,
    pub accs: Seq<AccView>,
}

impl View for ManifestEntry {
    type V = EntryView;

    open spec fn view(&self) -> EntryView {
        EntryView {
            path: self.path@,
            lengths: self.chunk.lengths@,
            checksums: self.chunk.checksums@.map_values(|c: String| c@),
            permissions: self.chunk.permissions,
            version: self.chunk.version_name@,
        }
    }
}

impl View for DownloadDrop {
    type V = DropView;

    open spec fn view(&self) -> DropView {
        DropView {
            filename: self.filename@,
            start: self.start as int,
            length: self.length as int,
            checksum: self.checksum@,
            permissions: self.permissions,
            index: self.index as int,
        }
    }
}

pub open spec fn drops_view(v: Seq<DownloadDrop>) -> Seq<DropView> {
    v.map_values(|d: DownloadDrop| d@)
}

impl View for DownloadBucket {
    type V = BucketView;

    open spec fn view(&self) -> BucketView {
        BucketView { game_id: self.game_id@, version: self.version@, drops: drops_view(self.drops@) }
    }
}

pub open spec fn buckets_view(v: Seq<DownloadBucket>) -> Seq<BucketView> {
    v.map_values(|b: DownloadBucket| b@)
}

pub open spec fn manifest_view(m: Seq<ManifestEntry>) -> Seq<EntryView> {
    m.map_values(|e: ManifestEntry| e@)
}

/// A manifest that can be laid out: each file named once, one checksum per
/// chunk, and each file's length fits in `usize`.
pub open spec fn manifest_wf(m: Seq<EntryView>) -> bool {
    &&& forall|k: int|
        0 <= k < m.len() ==> #[trigger] m[k].checksums.len() == m[k].lengths.len()
            && seq_sum(m[k].lengths) <= usize::MAX
    &&& forall|k1: int, k2: int|
        0 <= k1 < m.len() && 0 <= k2 < m.len() && k1 != k2 ==> #[trigger] m[k1].path != #[trigger] m[k2].path
}

/// Chunk `j` of a file starts where the chunks before it end.
pub open spec fn drop_at(e: EntryView, j: int) -> DropView {
    DropView {
        filename: e.path,
        start: seq_sum(e.lengths.subrange(0, j)),
        length: e.lengths[j] as int,
        checksum: e.checksums[j],
        permissions: e.permissions,
        index: j,
    }
}

/// Position of the first accumulator of `version`, or `accs.len()` if there is none.
pub open spec fn acc_index(accs: Seq<AccView>, version: Seq<char>) -> int
    decreases accs.len(),
{
    if accs.len() == 0 {
        0
    } else if accs[0].version == version {
        0
    } else {
        1 + acc_index(accs.drop_first(), version)
    }
}

/// Places one drop: a drop of at least the target size gets a bucket of its
/// own; any other joins its version's accumulator, which is first emitted as
/// a bucket when the drop would take it past the size or count bound.
pub open spec fn plan_step(st: PlanState, d: DropView, version: Seq<char>, game_id: Seq<char>) -> PlanState {
    if d.length >= TARGET_BUCKET_SIZE {
        PlanState {
            buckets: st.buckets.push(BucketView { game_id, version, drops: seq![d] }),
            accs: st.accs,
        }
    } else {
        let i = acc_index(st.accs, version);
        if i == st.accs.len() {
            PlanState {
                buckets: st.buckets,
                accs: st.accs.push(AccView { version, drops: seq![d], size: d.length }),
            }
        } else {
            let a = st.accs[i];
            if (a.size + d.length > TARGET_BUCKET_SIZE || a.drops.len() >= MAX_FILES_PER_BUCKET)
                && a.drops.len() > 0 {
                PlanState {
                    buckets: st.buckets.push(BucketView { game_id, version: a.version, drops: a.drops }),
                    accs: st.accs.update(i, AccView { version, drops: seq![d], size: d.length }),
                }
            } else {
                PlanState {
                    buckets: st.buckets,
                    accs: st.accs.update(
                        i,
                        AccView { version, drops: a.drops.push(d), size: a.size + d.length },
                    ),
                }
            }
        }
    }
}

/// State after placing the first `j` chunks of one file.
pub open spec fn fold_file(st: PlanState, e: EntryView, j: int, game_id: Seq<char>) -> PlanState
    decreases j,
{
    if j <= 0 {
        st
    } else {
        plan_step(fold_file(st, e, j - 1, game_id), drop_at(e, j - 1), e.version, game_id)
    }
}

/// State after placing every chunk of the first `k` files.
pub open spec fn fold_files(m: Seq<EntryView>, k: int, game_id: Seq<char>) -> PlanState
    decreases k,
{
    if k <= 0 {
        PlanState { buckets: Seq::empty(), accs: Seq::empty() }
    } else {
        let st = fold_files(m, k - 1, game_id);
        fold_file(st, m[k - 1], m[k - 1].lengths.len() as int, game_id)
    }
}

pub open spec fn acc_bucket(a: AccView, game_id: Seq<char>) -> BucketView {
    BucketView { game_id, version: a.version, drops: a.drops }
}

/// The buckets of a manifest: those emitted while placing the chunks, then
/// each non-empty accumulator in order of first use.
pub open spec fn plan(m: Seq<EntryView>, game_id: Seq<char>) -> Seq<BucketView> {
    let st = fold_files(m, m.len() as int, game_id);
    st.buckets + st.accs.filter(|a: AccView| a.drops.len() > 0).map_values(
        |a: AccView| acc_bucket(a, game_id),
    )
}

impl DownloadDrop {
    /// A copy with the same view.
    pub fn duplicate(&self) -> (r: Self)
        ensures
            r@ == self@,
    {
        DownloadDrop {
            filename: self.filename.clone(),
            start: self.start,
            length: self.length,
            checksum: self.checksum.clone(),
            permissions: self.permissions,
            index: self.index,
        }
    }
}

struct BucketAccumulator {
    version: String,
    drops: Vec<DownloadDrop>,
    size: usize,
}

impl View for BucketAccumulator {
    type V = AccView;

    closed spec fn view(&self) -> AccView {
        AccView { version: self.version@, drops: drops_view(self.drops@), size: self.size as int }
    }
}

spec fn accs_view(v: Seq<BucketAccumulator>) -> Seq<AccView> {
    v.map_values(|a: BucketAccumulator| a@)
}

spec fn accs_bounded(accs: Seq<AccView>) -> bool {
    forall|i: int|
        0 <= i < accs.len() ==> #[trigger] accs[i].size <= TARGET_BUCKET_SIZE && accs[i].drops.len()
            > 0
}

pub proof fn lemma_prefix_le(s: Seq<usize>, j: int)
    requires
        0 <= j <= s.len(),
    ensures
        seq_sum(s.subrange(0, j)) <= seq_sum(s),
        seq_sum(s.subrange(0, j)) >= 0,
    decreases s.len() - j,
{
    crate::rolling::lemma_sum_bound(s.subrange(0, j));
    if j < s.len() {
        lemma_sum_prefix_step(s, j);
        lemma_prefix_le(s, j + 1);
    } else {
        assert(s.subrange(0, j) =~= s);
        crate::rolling::lemma_sum_bound(s);
    }
}

fn find_acc(accs: &Vec<BucketAccumulator>, version: &String) -> (r: usize)
    ensures
        r as int == acc_index(accs_view(accs@), version@),
{
    let mut i: usize = 0;
    assert(accs_view(accs@).subrange(0, accs@.len() as int) =~= accs_view(accs@));
    while i < accs.len()
        invariant
            i <= accs.len(),
            acc_index(accs_view(accs@), version@) == i + acc_index(
                accs_view(accs@).subrange(i as int, accs@.len() as int),
                version@,
            ),
        decreases accs.len() - i,
    {
        let ghost rest = accs_view(accs@).subrange(i as int, accs@.len() as int);
        if accs[i].version == *version {
            return i;
        }
        assert(rest.drop_first() =~= accs_view(accs@).subrange(i as int + 1, accs@.len() as int));
        i = i + 1;
    }
    assert(accs_view(accs@).subrange(i as int, accs@.len() as int) =~= Seq::<AccView>::empty());
    i
}

proof fn lemma_acc_index_bound(accs: Seq<AccView>, version: Seq<char>)
    ensures
        0 <= acc_index(accs, version) <= accs.len(),
        acc_index(accs, version) < accs.len() ==> accs[acc_index(accs, version)].version == version,
    decreases accs.len(),
{
    if accs.len() > 0 && accs[0].version != version {
        lemma_acc_index_bound(accs.drop_first(), version);
    }
}

fn place_drop(
    game_id: &String,
    buckets: &mut Vec<DownloadBucket>,
    accs: &mut Vec<BucketAccumulator>,
    drop: DownloadDrop,
    version: &String,
)
    requires
        accs_bounded(accs_view(old(accs)@)),
    ensures
        accs_bounded(accs_view(final(accs)@)),
        (PlanState { buckets: buckets_view(final(buckets)@), accs: accs_view(final(accs)@) })
            == plan_step(
            PlanState { buckets: buckets_view(old(buckets)@), accs: accs_view(old(accs)@) },
            drop@,
            version@,
            game_id@,
        ),
{
    let ghost d = drop@;
    if drop.length >= TARGET_BUCKET_SIZE {
        let mut drops: Vec<DownloadDrop> = Vec::new();
        drops.push(drop);
        let b = DownloadBucket { game_id: game_id.clone(), version: version.clone(), drops };
        assert(drops_view(b.drops@) =~= seq![d]);
        buckets.push(b);
        assert(buckets_view(buckets@) =~= buckets_view(old(buckets)@).push(b@));
        return;
    }
    let i = find_acc(accs, version);
    proof {
        lemma_acc_index_bound(accs_view(accs@), version@);
    }
    let length = drop.length;
    if i == accs.len() {
        let mut drops: Vec<DownloadDrop> = Vec::new();
        drops.push(drop);
        let a = BucketAccumulator { version: version.clone(), drops, size: length };
        assert(drops_view(a.drops@) =~= seq![d]);
        accs.push(a);
        assert(accs_view(accs@) =~= accs_view(old(accs)@).push(a@));
        return;
    }
    let ghost a_old = accs_view(accs@)[i as int];
    let must_flush = (accs[i].size + length > TARGET_BUCKET_SIZE || accs[i].drops.len()
        >= MAX_FILES_PER_BUCKET) && accs[i].drops.len() > 0;
    if must_flush {
        let mut drops: Vec<DownloadDrop> = Vec::new();
        drops.push(drop);
        let fresh = BucketAccumulator { version: version.clone(), drops, size: length };
        assert(drops_view(fresh.drops@) =~= seq![d]);
        let ghost before = accs@;
        let full = accs.remove(i);
        accs.insert(i, fresh);
        assert(full == before[i as int]);
        assert(accs@ =~= before.update(i as int, fresh));
        assert(accs_view(accs@) =~= accs_view(before).update(i as int, fresh@));
        let b = DownloadBucket { game_id: game_id.clone(), version: full.version, drops: full.drops };
        buckets.push(b);
        assert(buckets_view(buckets@) =~= buckets_view(old(buckets)@).push(b@));
    } else {
        let ghost before = accs@;
        let mut a = accs.remove(i);
        assert(a == before[i as int]);
        let ghost old_drops = a.drops@;
        a.drops.push(drop);
        a.size = a.size + length;
        assert(drops_view(a.drops@) =~= drops_view(old_drops).push(d));
        accs.insert(i, a);
        assert(accs@ =~= before.update(i as int, a));
        assert(accs_view(accs@) =~= accs_view(before).update(i as int, a@));
    }
}

/// Splits a manifest into buckets. Files are taken in the order given and the
/// chunks of each file in order, each chunk starting where the previous one
/// of its file ended.
pub fn generate_buckets(game_id: &String, manifest: &Vec<ManifestEntry>) -> (r: Vec<DownloadBucket>)
    requires
        manifest_wf(manifest_view(manifest@)),
    ensures
        buckets_view(r@) == plan(manifest_view(manifest@), game_id@),
{
    let ghost mv = manifest_view(manifest@);
    let mut buckets: Vec<DownloadBucket> = Vec::new();
    let mut accs: Vec<BucketAccumulator> = Vec::new();
    let mut k: usize = 0;
    assert(buckets_view(buckets@) =~= Seq::<BucketView>::empty());
    assert(accs_view(accs@) =~= Seq::<AccView>::empty());
    while k < manifest.len()
        invariant
            k <= manifest@.len(),
            mv == manifest_view(manifest@),
            manifest_wf(mv),
            accs_bounded(accs_view(accs@)),
            (PlanState { buckets: buckets_view(buckets@), accs: accs_view(accs@) })
                == fold_files(mv, k as int, game_id@),
        decreases manifest@.len() - k,
    {
        let entry = &manifest[k];
        let ghost e = mv[k as int];
        assert(mv[k as int].checksums.len() == mv[k as int].lengths.len());
        let ghost start_state = fold_files(mv, k as int, game_id@);
        assert(e == entry@);
        let n = entry.chunk.lengths.len();
        let mut offset: usize = 0;
        let mut j: usize = 0;
        assert(e.lengths.subrange(0, 0) =~= Seq::<usize>::empty());
        while j < n
            invariant
                j <= n,
                n == e.lengths.len(),
                e == entry@,
                e.checksums.len() == n,
                seq_sum(e.lengths) <= usize::MAX,
                offset as int == seq_sum(e.lengths.subrange(0, j as int)),
                accs_bounded(accs_view(accs@)),
                (PlanState { buckets: buckets_view(buckets@), accs: accs_view(accs@) })
                    == fold_file(start_state, e, j as int, game_id@),
            decreases n - j,
        {
            let length = entry.chunk.lengths[j];
            proof {
                lemma_sum_prefix_step(e.lengths, j as int);
                lemma_prefix_le(e.lengths, j as int + 1);
            }
            let drop = DownloadDrop {
                filename: entry.path.clone(),
                start: offset,
                length,
                checksum: entry.chunk.checksums[j].clone(),
                permissions: entry.chunk.permissions,
                index: j,
            };
            assert(drop@ == drop_at(e, j as int));
            place_drop(game_id, &mut buckets, &mut accs, drop, &entry.chunk.version_name);
            offset = offset + length;
            j = j + 1;
        }
        k = k + 1;
    }
    let ghost st = fold_files(mv, manifest@.len() as int, game_id@);
    let ghost tail = st.accs.filter(|a: AccView| a.drops.len() > 0).map_values(
        |a: AccView| acc_bucket(a, game_id@),
    );
    let ghost head = buckets_view(buckets@);
    let mut i: usize = 0;
    let n_accs = accs.len();
    let ghost accs_seq = accs@;
    assert(accs_seq.subrange(0, n_accs as int) =~= accs_seq);
    while i < n_accs
        invariant
            i <= n_accs,
            n_accs == accs_seq.len(),
            accs_view(accs_seq) == st.accs,
            buckets_view(buckets@) == head + st.accs.subrange(0, i as int).filter(
                |a: AccView| a.drops.len() > 0,
            ).map_values(|a: AccView| acc_bucket(a, game_id@)),
            accs@ == accs_seq.subrange(i as int, n_accs as int),
        decreases n_accs - i,
    {
        let ghost before = buckets_view(buckets@);
        let ghost pre = st.accs.subrange(0, i as int);
        let ghost a = st.accs[i as int];
        assert(st.accs.subrange(0, i as int + 1) =~= pre.push(a));
        reveal(Seq::filter);
        assert(pre.push(a).filter(|a: AccView| a.drops.len() > 0) == if a.drops.len() > 0 {
            pre.filter(|a: AccView| a.drops.len() > 0).push(a)
        } else {
            pre.filter(|a: AccView| a.drops.len() > 0)
        }) by {
            assert(pre.push(a).drop_last() =~= pre);
        }
        let acc = accs.remove(0);
        assert(acc == accs_seq[i as int]);
        assert(accs@ =~= accs_seq.subrange(i as int + 1, n_accs as int));
        assert(acc@ == a);
        if acc.drops.len() > 0 {
            let b = DownloadBucket { game_id: game_id.clone(), version: acc.version, drops: acc.drops };
            buckets.push(b);
            assert(buckets_view(buckets@) =~= before.push(b@));
            assert(b@ == acc_bucket(a, game_id@));
            assert(pre.filter(|a: AccView| a.drops.len() > 0).push(a).map_values(
                |a: AccView| acc_bucket(a, game_id@),
            ) =~= pre.filter(|a: AccView| a.drops.len() > 0).map_values(
                |a: AccView| acc_bucket(a, game_id@),
            ).push(acc_bucket(a, game_id@)));
            assert(buckets_view(buckets@) =~= head + st.accs.subrange(0, i as int + 1).filter(
                |a: AccView| a.drops.len() > 0,
            ).map_values(|a: AccView| acc_bucket(a, game_id@)));
        }
        i = i + 1;
    }
    assert(st.accs.subrange(0, n_accs as int) =~= st.accs);
    buckets
}

/// Total bytes of a list of drops.
pub open spec fn drops_size(s: Seq<DropView>) -> int
    decreases s.len(),
{
    if s.len() == 0 {
        0
    } else {
        drops_size(s.drop_last()) + s.last().length
    }
}

/// A bucket within bounds: one to `MAX_FILES_PER_BUCKET` drops, and unless it
/// is a singleton, every drop under the target size and the total within it.
pub open spec fn bucket_ok(b: BucketView) -> bool {
    &&& 1 <= b.drops.len() <= MAX_FILES_PER_BUCKET
    &&& (b.drops.len() == 1 || (drops_size(b.drops) <= TARGET_BUCKET_SIZE && forall|i: int|
        0 <= i < b.drops.len() ==> #[trigger] b.drops[i].length < TARGET_BUCKET_SIZE))
}

spec fn acc_ok(a: AccView) -> bool {
    &&& 1 <= a.drops.len() <= MAX_FILES_PER_BUCKET
    &&& a.size == drops_size(a.drops)
    &&& a.size <= TARGET_BUCKET_SIZE
    &&& forall|i: int| 0 <= i < a.drops.len() ==> #[trigger] a.drops[i].length < TARGET_BUCKET_SIZE
}

spec fn state_ok(st: PlanState) -> bool {
    &&& forall|i: int| 0 <= i < st.buckets.len() ==> #[trigger] bucket_ok(st.buckets[i])
    &&& forall|i: int| 0 <= i < st.accs.len() ==> #[trigger] acc_ok(st.accs[i])
}

proof fn lemma_step_ok(st: PlanState, d: DropView, version: Seq<char>, game_id: Seq<char>)
    requires
        state_ok(st),
        d.length >= 0,
    ensures
        state_ok(plan_step(st, d, version, game_id)),
{
    let r = plan_step(st, d, version, game_id);
    lemma_acc_index_bound(st.accs, version);
    assert(drops_size(seq![d]) == d.length) by {
        assert(seq![d].drop_last() =~= Seq::<DropView>::empty());
        assert(seq![d].last() == d);
        assert(drops_size(Seq::<DropView>::empty()) == 0);
    }
    if d.length < TARGET_BUCKET_SIZE {
        let i = acc_index(st.accs, version);
        if i < st.accs.len() {
            let a = st.accs[i];
            assert(acc_ok(a));
            if !((a.size + d.length > TARGET_BUCKET_SIZE || a.drops.len() >= MAX_FILES_PER_BUCKET)
                && a.drops.len() > 0) {
                assert(a.drops.push(d).drop_last() =~= a.drops);
                let na = r.accs[i];
                assert forall|t: int| 0 <= t < na.drops.len() implies #[trigger] na.drops[t].length
                    < TARGET_BUCKET_SIZE by {
                    if t < a.drops.len() {
                        assert(na.drops[t] == a.drops[t]);
                    }
                }
            } else {
                assert(bucket_ok(r.buckets.last()));
            }
        }
    }
    assert forall|i: int| 0 <= i < r.buckets.len() implies #[trigger] bucket_ok(r.buckets[i]) by {
        if i < st.buckets.len() {
            assert(r.buckets[i] == st.buckets[i]);
        }
    }
}

proof fn lemma_fold_file_ok(st: PlanState, e: EntryView, j: int, game_id: Seq<char>)
    requires
        state_ok(st),
        0 <= j <= e.lengths.len(),
        e.checksums.len() == e.lengths.len(),
    ensures
        state_ok(fold_file(st, e, j, game_id)),
    decreases j,
{
    if j > 0 {
        lemma_fold_file_ok(st, e, j - 1, game_id);
        lemma_step_ok(fold_file(st, e, j - 1, game_id), drop_at(e, j - 1), e.version, game_id);
    }
}

proof fn lemma_fold_files_ok(m: Seq<EntryView>, k: int, game_id: Seq<char>)
    requires
        manifest_wf(m),
        0 <= k <= m.len(),
    ensures
        state_ok(fold_files(m, k, game_id)),
    decreases k,
{
    if k > 0 {
        lemma_fold_files_ok(m, k - 1, game_id);
        assert(m[k - 1].checksums.len() == m[k - 1].lengths.len());
        lemma_fold_file_ok(fold_files(m, k - 1, game_id), m[k - 1], m[k - 1].lengths.len() as int, game_id);
    }
}

/// Every bucket of a plan holds between one and `MAX_FILES_PER_BUCKET` drops;
/// a chunk of at least `TARGET_BUCKET_SIZE` bytes is alone in its bucket, and
/// any other bucket stays within `TARGET_BUCKET_SIZE` bytes.
pub proof fn lemma_plan_buckets_bounded(m: Seq<EntryView>, game_id: Seq<char>)
    requires
        manifest_wf(m),
    ensures
        forall|b: int| 0 <= b < plan(m, game_id).len() ==> #[trigger] bucket_ok(plan(m, game_id)[b]),
        forall|b: int, i: int|
            0 <= b < plan(m, game_id).len() && 0 <= i < plan(m, game_id)[b].drops.len()
                && #[trigger] plan(m, game_id)[b].drops[i].length >= TARGET_BUCKET_SIZE
                ==> plan(m, game_id)[b].drops.len() == 1,
{
    let st = fold_files(m, m.len() as int, game_id);
    lemma_fold_files_ok(m, m.len() as int, game_id);
    let pred = |a: AccView| a.drops.len() > 0;
    let f = st.accs.filter(pred);
    let tail = f.map_values(|a: AccView| acc_bucket(a, game_id));
    let p = plan(m, game_id);
    assert(p == st.buckets + tail);
    assert forall|b: int| 0 <= b < p.len() implies #[trigger] bucket_ok(p[b]) by {
        if b < st.buckets.len() {
            assert(p[b] == st.buckets[b]);
        } else {
            let t = b - st.buckets.len();
            assert(p[b] == tail[t]);
            assert(f.contains(f[t]));
            st.accs.lemma_filter_contains_rev(pred, f[t]);
            let w = choose|w: int| 0 <= w < st.accs.len() && st.accs[w] == f[t];
            assert(acc_ok(st.accs[w]));
        }
    }
    assert forall|b: int, i: int|
        0 <= b < p.len() && 0 <= i < p[b].drops.len() && #[trigger] p[b].drops[i].length
            >= TARGET_BUCKET_SIZE implies p[b].drops.len() == 1 by {
        assert(bucket_ok(p[b]));
    }
}

/// Chunks of one file never overlap: each ends at or before the start of
/// every later chunk of that file.
pub proof fn lemma_drops_disjoint(e: EntryView, i: int, j: int)
    requires
        0 <= i < j < e.lengths.len(),
        e.checksums.len() == e.lengths.len(),
    ensures
        drop_at(e, i).start + drop_at(e, i).length <= drop_at(e, j).start,
        drop_at(e, i).filename == drop_at(e, j).filename,
{
    lemma_sum_prefix_step(e.lengths, i);
    lemma_prefix_le(e.lengths.subrange(0, j), i + 1);
    assert(e.lengths.subrange(0, j).subrange(0, i + 1) =~= e.lengths.subrange(0, i + 1));
}

/// Whether `d` is chunk `j` of file `k` of the manifest, for some `k` and `j`.
pub open spec fn in_manifest(m: Seq<EntryView>, d: DropView) -> bool {
    exists|k: int, j: int| 0 <= k < m.len() && 0 <= j < m[k].lengths.len() && d == #[trigger] drop_at(m[k], j)
}

spec fn state_from(m: Seq<EntryView>, st: PlanState) -> bool {
    &&& forall|b: int, i: int| 0 <= b < st.buckets.len() && 0 <= i < st.buckets[b].drops.len() ==> in_manifest(m, #[trigger] st.buckets[b].drops[i])
    &&& forall|a: int, i: int| 0 <= a < st.accs.len() && 0 <= i < st.accs[a].drops.len() ==> in_manifest(m, #[trigger] st.accs[a].drops[i])
}

proof fn lemma_step_from(m: Seq<EntryView>, st: PlanState, d: DropView, version: Seq<char>, game_id: Seq<char>)
    requires
        state_from(m, st),
        in_manifest(m, d),
    ensures
        state_from(m, plan_step(st, d, version, game_id)),
{
    let r = plan_step(st, d, version, game_id);
    lemma_acc_index_bound(st.accs, version);
    assert forall|b: int, i: int| 0 <= b < r.buckets.len() && 0 <= i < r.buckets[b].drops.len() implies in_manifest(m, #[trigger] r.buckets[b].drops[i]) by {
        if b < st.buckets.len() {
            assert(r.buckets[b] == st.buckets[b]);
        } else if d.length < TARGET_BUCKET_SIZE {
            let t = acc_index(st.accs, version);
            assert(r.buckets[b].drops == st.accs[t].drops);
        }
    }
    assert forall|a: int, i: int| 0 <= a < r.accs.len() && 0 <= i < r.accs[a].drops.len() implies in_manifest(m, #[trigger] r.accs[a].drops[i]) by {
        if d.length < TARGET_BUCKET_SIZE {
            let t = acc_index(st.accs, version);
            if a < st.accs.len() && a != t {
                assert(r.accs[a] == st.accs[a]);
            } else if a < st.accs.len() && i < st.accs[a].drops.len() {
                if r.accs[a].drops.len() > 1 {
                    assert(r.accs[a].drops[i] == st.accs[a].drops[i]);
                }
            }
        }
    }
}

proof fn lemma_fold_file_from(m: Seq<EntryView>, st: PlanState, k: int, j: int, game_id: Seq<char>)
    requires
        state_from(m, st),
        0 <= k < m.len(),
        0 <= j <= m[k].lengths.len(),
    ensures
        state_from(m, fold_file(st, m[k], j, game_id)),
    decreases j,
{
    if j > 0 {
        lemma_fold_file_from(m, st, k, j - 1, game_id);
        assert(in_manifest(m, drop_at(m[k], j - 1)));
        lemma_step_from(m, fold_file(st, m[k], j - 1, game_id), drop_at(m[k], j - 1), m[k].version, game_id);
    }
}

proof fn lemma_fold_files_from(m: Seq<EntryView>, k: int, game_id: Seq<char>)
    requires
        0 <= k <= m.len(),
    ensures
        state_from(m, fold_files(m, k, game_id)),
    decreases k,
{
    if k > 0 {
        lemma_fold_files_from(m, k - 1, game_id);
        lemma_fold_file_from(m, fold_files(m, k - 1, game_id), k - 1, m[k - 1].lengths.len() as int, game_id);
    }
}

/// Every drop of a plan is a chunk of the manifest, at the offset where the
/// chunks before it in its file end.
pub proof fn lemma_plan_drops_from_manifest(m: Seq<EntryView>, game_id: Seq<char>)
    ensures
        forall|b: int, i: int| 0 <= b < plan(m, game_id).len() && 0 <= i < plan(m, game_id)[b].drops.len()
            ==> in_manifest(m, #[trigger] plan(m, game_id)[b].drops[i]),
{
    let st = fold_files(m, m.len() as int, game_id);
    lemma_fold_files_from(m, m.len() as int, game_id);
    let pred = |a: AccView| a.drops.len() > 0;
    let f = st.accs.filter(pred);
    let tail = f.map_values(|a: AccView| acc_bucket(a, game_id));
    let p = plan(m, game_id);
    assert(p == st.buckets + tail);
    assert forall|b: int, i: int| 0 <= b < p.len() && 0 <= i < p[b].drops.len() implies in_manifest(m, #[trigger] p[b].drops[i]) by {
        if b < st.buckets.len() {
            assert(p[b] == st.buckets[b]);
        } else {
            let t = b - st.buckets.len();
            assert(p[b] == tail[t]);
            assert(f.contains(f[t]));
            st.accs.lemma_filter_contains_rev(pred, f[t]);
            let w = choose|w: int| 0 <= w < st.accs.len() && st.accs[w] == f[t];
            assert(p[b].drops[i] == st.accs[w].drops[i]);
        }
    }
}

/// Two drops of a plan that lie in the same file and are different chunks
/// of it cover disjoint byte ranges.
pub proof fn lemma_plan_ranges_disjoint(m: Seq<EntryView>, game_id: Seq<char>, d1: DropView, d2: DropView)
    requires
        manifest_wf(m),
        exists|b: int, i: int| 0 <= b < plan(m, game_id).len() && 0 <= i < plan(m, game_id)[b].drops.len() && plan(m, game_id)[b].drops[i] == d1,
        exists|b: int, i: int| 0 <= b < plan(m, game_id).len() && 0 <= i < plan(m, game_id)[b].drops.len() && plan(m, game_id)[b].drops[i] == d2,
        d1.filename == d2.filename,
        d1.index != d2.index,
    ensures
        d1.start + d1.length <= d2.start || d2.start + d2.length <= d1.start,
{
    lemma_plan_drops_from_manifest(m, game_id);
    let p = plan(m, game_id);
    let (b1, i1) = choose|b: int, i: int| 0 <= b < p.len() && 0 <= i < p[b].drops.len() && p[b].drops[i] == d1;
    let (b2, i2) = choose|b: int, i: int| 0 <= b < p.len() && 0 <= i < p[b].drops.len() && p[b].drops[i] == d2;
    assert(in_manifest(m, p[b1].drops[i1]));
    assert(in_manifest(m, p[b2].drops[i2]));
    let (k1, j1) = choose|k: int, j: int| 0 <= k < m.len() && 0 <= j < m[k].lengths.len() && d1 == drop_at(m[k], j);
    let (k2, j2) = choose|k: int, j: int| 0 <= k < m.len() && 0 <= j < m[k].lengths.len() && d2 == drop_at(m[k], j);
    assert(k1 == k2);
    assert(m[k1].checksums.len() == m[k1].lengths.len());
    if j1 < j2 {
        lemma_drops_disjoint(m[k1], j1, j2);
    } else {
        lemma_drops_disjoint(m[k1], j2, j1);
    }
}

/// The drops of a bucket list, counted with multiplicity.
pub open spec fn buckets_ms(bs: Seq<BucketView>) -> Multiset<DropView>
    decreases bs.len(),
{
    if bs.len() == 0 {
        Multiset::empty()
    } else {
        buckets_ms(bs.drop_last()).add(bs.last().drops.to_multiset())
    }
}

spec fn accs_ms(accs: Seq<AccView>) -> Multiset<DropView>
    decreases accs.len(),
{
    if accs.len() == 0 {
        Multiset::empty()
    } else {
        accs_ms(accs.drop_last()).add(accs.last().drops.to_multiset())
    }
}

/// The first `j` chunks of a file, counted with multiplicity.
pub open spec fn file_chunks_ms(e: EntryView, j: int) -> Multiset<DropView>
    decreases j,
{
    if j <= 0 {
        Multiset::empty()
    } else {
        file_chunks_ms(e, j - 1).insert(drop_at(e, j - 1))
    }
}

/// Every chunk of the first `k` files, counted with multiplicity.
pub open spec fn manifest_chunks_ms(m: Seq<EntryView>, k: int) -> Multiset<DropView>
    decreases k,
{
    if k <= 0 {
        Multiset::empty()
    } else {
        manifest_chunks_ms(m, k - 1).add(file_chunks_ms(m[k - 1], m[k - 1].lengths.len() as int))
    }
}

spec fn state_ms(st: PlanState) -> Multiset<DropView> {
    buckets_ms(st.buckets).add(accs_ms(st.accs))
}

proof fn lemma_accs_ms_update(s: Seq<AccView>, i: int, x: AccView)
    requires
        0 <= i < s.len(),
    ensures
        accs_ms(s.update(i, x)).add(s[i].drops.to_multiset()) =~= accs_ms(s).add(x.drops.to_multiset()),
    decreases s.len(),
{
    broadcast use vstd::multiset::group_multiset_axioms;
    let u = s.update(i, x);
    let dl = s.drop_last();
    let si = s[i].drops.to_multiset();
    let xm = x.drops.to_multiset();
    if i == s.len() - 1 {
        assert(u.drop_last() =~= dl);
        assert forall|v: DropView| #[trigger] accs_ms(u).add(si).count(v) == accs_ms(s).add(xm).count(v) by {
            assert(accs_ms(u) == accs_ms(dl).add(xm));
            assert(accs_ms(s) == accs_ms(dl).add(si));
        }
    } else {
        lemma_accs_ms_update(dl, i, x);
        assert(u.drop_last() =~= dl.update(i, x));
        let lm = s.last().drops.to_multiset();
        assert forall|v: DropView| #[trigger] accs_ms(u).add(si).count(v) == accs_ms(s).add(xm).count(v) by {
            assert(accs_ms(u) == accs_ms(dl.update(i, x)).add(lm));
            assert(accs_ms(s) == accs_ms(dl).add(lm));
            assert(accs_ms(dl.update(i, x)).add(si).count(v) == accs_ms(dl).add(xm).count(v));
        }
    }
}

proof fn lemma_step_ms(st: PlanState, d: DropView, version: Seq<char>, game_id: Seq<char>)
    ensures
        state_ms(plan_step(st, d, version, game_id)) =~= state_ms(st).insert(d),
{
    broadcast use vstd::seq_lib::group_to_multiset_ensures, vstd::multiset::group_multiset_axioms,
        vstd::multiset::group_multiset_properties;
    let r = plan_step(st, d, version, game_id);
    let one = seq![d].to_multiset();
    assert(seq![d] =~= Seq::<DropView>::empty().push(d));
    assert(one =~= Multiset::<DropView>::empty().insert(d));
    let bm = buckets_ms(st.buckets);
    let am = accs_ms(st.accs);
    assert forall|v: DropView| #[trigger] state_ms(st).insert(d).count(v) == bm.count(v) + am.count(v) + one.count(v) by {
        if v == d {
            assert(state_ms(st).insert(d).count(v) == state_ms(st).count(v) + 1);
        } else {
            assert(state_ms(st).insert(d).count(v) == state_ms(st).count(v));
        }
    }
    lemma_acc_index_bound(st.accs, version);
    if d.length >= TARGET_BUCKET_SIZE {
        assert(r.buckets.drop_last() =~= st.buckets);
        assert(buckets_ms(r.buckets) == bm.add(one));
        assert(r.accs == st.accs);
        assert forall|v: DropView| #[trigger] state_ms(r).count(v) == state_ms(st).insert(d).count(v) by {}
    } else {
        let i = acc_index(st.accs, version);
        if i == st.accs.len() {
            assert(r.accs.drop_last() =~= st.accs);
            assert(accs_ms(r.accs) == am.add(one));
            assert(r.buckets == st.buckets);
            assert forall|v: DropView| #[trigger] state_ms(r).count(v) == state_ms(st).insert(d).count(v) by {}
        } else {
            let a = st.accs[i];
            let old_m = a.drops.to_multiset();
            if (a.size + d.length > TARGET_BUCKET_SIZE || a.drops.len() >= MAX_FILES_PER_BUCKET)
                && a.drops.len() > 0 {
                let na = AccView { version, drops: seq![d], size: d.length };
                assert(r.buckets.drop_last() =~= st.buckets);
                assert(buckets_ms(r.buckets) == bm.add(old_m));
                lemma_accs_ms_update(st.accs, i, na);
                assert(r.accs == st.accs.update(i, na));
                assert forall|v: DropView| #[trigger] state_ms(r).count(v) == state_ms(st).insert(d).count(v) by {
                    assert(accs_ms(r.accs).add(old_m).count(v) == am.add(one).count(v));
                }
            } else {
                let na = AccView { version, drops: a.drops.push(d), size: a.size + d.length };
                lemma_accs_ms_update(st.accs, i, na);
                assert(r.accs == st.accs.update(i, na));
                assert(na.drops.to_multiset() =~= old_m.insert(d));
                assert(r.buckets == st.buckets);
                assert forall|v: DropView| #[trigger] state_ms(r).count(v) == state_ms(st).insert(d).count(v) by {
                    assert(accs_ms(r.accs).add(old_m).count(v) == am.add(na.drops.to_multiset()).count(v));
                    if v == d {
                        assert(old_m.insert(d).count(v) == old_m.count(v) + 1);
                    } else {
                        assert(old_m.insert(d).count(v) == old_m.count(v));
                    }
                }
            }
        }
    }
}

proof fn lemma_fold_file_ms(st: PlanState, e: EntryView, j: int, game_id: Seq<char>)
    requires
        j >= 0,
    ensures
        state_ms(fold_file(st, e, j, game_id)) =~= state_ms(st).add(file_chunks_ms(e, j)),
    decreases j,
{
    if j > 0 {
        lemma_fold_file_ms(st, e, j - 1, game_id);
        lemma_step_ms(fold_file(st, e, j - 1, game_id), drop_at(e, j - 1), e.version, game_id);
    }
}

proof fn lemma_fold_files_ms(m: Seq<EntryView>, k: int, game_id: Seq<char>)
    requires
        0 <= k <= m.len(),
    ensures
        state_ms(fold_files(m, k, game_id)) =~= manifest_chunks_ms(m, k),
    decreases k,
{
    if k > 0 {
        lemma_fold_files_ms(m, k - 1, game_id);
        lemma_fold_file_ms(fold_files(m, k - 1, game_id), m[k - 1], m[k - 1].lengths.len() as int, game_id);
    } else {
        assert(buckets_ms(Seq::<BucketView>::empty()) =~= Multiset::<DropView>::empty());
    }
}

proof fn lemma_buckets_ms_concat(a: Seq<BucketView>, b: Seq<BucketView>)
    ensures
        buckets_ms(a + b) =~= buckets_ms(a).add(buckets_ms(b)),
    decreases b.len(),
{
    if b.len() > 0 {
        lemma_buckets_ms_concat(a, b.drop_last());
        assert((a + b).drop_last() =~= a + b.drop_last());
    } else {
        assert(a + b =~= a);
    }
}

proof fn lemma_tail_ms(accs: Seq<AccView>, game_id: Seq<char>)
    ensures
        buckets_ms(accs.filter(|a: AccView| a.drops.len() > 0).map_values(|a: AccView| acc_bucket(a, game_id)))
            =~= accs_ms(accs),
    decreases accs.len(),
{
    broadcast use vstd::seq_lib::group_to_multiset_ensures;
    let pred = |a: AccView| a.drops.len() > 0;
    let f = |a: AccView| acc_bucket(a, game_id);
    if accs.len() > 0 {
        let init = accs.drop_last();
        let a = accs.last();
        lemma_tail_ms(init, game_id);
        reveal(Seq::filter);
        assert(accs.filter(pred) == if pred(a) { init.filter(pred).push(a) } else { init.filter(pred) }) by {
            assert(init.push(a) =~= accs);
        }
        if pred(a) {
            assert(init.filter(pred).push(a).map_values(f) =~= init.filter(pred).map_values(f).push(f(a)));
            assert(init.filter(pred).push(a).map_values(f).drop_last() =~= init.filter(pred).map_values(f));
        } else {
            assert(a.drops =~= Seq::<DropView>::empty());
            assert(a.drops.to_multiset() =~= Multiset::<DropView>::empty());
        }
    } else {
        reveal(Seq::filter);
        assert(accs.filter(pred) =~= Seq::<AccView>::empty());
        assert(accs.filter(pred).map_values(f) =~= Seq::<BucketView>::empty());
    }
}

/// The drops of a plan are exactly the chunks of the manifest, each as often
/// as the manifest holds it.
pub proof fn lemma_plan_covers_manifest(m: Seq<EntryView>, game_id: Seq<char>)
    ensures
        buckets_ms(plan(m, game_id)) == manifest_chunks_ms(m, m.len() as int),
{
    let st = fold_files(m, m.len() as int, game_id);
    lemma_fold_files_ms(m, m.len() as int, game_id);
    let tail = st.accs.filter(|a: AccView| a.drops.len() > 0).map_values(|a: AccView| acc_bucket(a, game_id));
    lemma_buckets_ms_concat(st.buckets, tail);
    lemma_tail_ms(st.accs, game_id);
}

/// With each file named once, every chunk of the manifest lies in exactly
/// one drop of the plan.
pub proof fn lemma_plan_chunks_once(m: Seq<EntryView>, game_id: Seq<char>, k: int, j: int)
    requires
        manifest_wf(m),
        0 <= k < m.len(),
        0 <= j < m[k].lengths.len(),
    ensures
        buckets_ms(plan(m, game_id)).count(drop_at(m[k], j)) == 1,
{
    lemma_plan_covers_manifest(m, game_id);
    lemma_chunk_count(m, m.len() as int, k, j);
}

proof fn lemma_file_chunk_count(e: EntryView, n: int, j: int, d: DropView)
    requires
        0 <= n,
        d.filename == e.path,
        d.index == j,
    ensures
        file_chunks_ms(e, n).count(d) == (if 0 <= j < n && d == drop_at(e, j) { 1int } else { 0int }),
    decreases n,
{
    if n > 0 {
        lemma_file_chunk_count(e, n - 1, j, d);
    }
}

proof fn lemma_file_chunk_other(e: EntryView, n: int, d: DropView)
    requires
        0 <= n,
        d.filename != e.path,
    ensures
        file_chunks_ms(e, n).count(d) == 0,
    decreases n,
{
    if n > 0 {
        lemma_file_chunk_other(e, n - 1, d);
    }
}

proof fn lemma_chunk_count(m: Seq<EntryView>, n: int, k: int, j: int)
    requires
        manifest_wf(m),
        0 <= n <= m.len(),
        0 <= k < m.len(),
        0 <= j < m[k].lengths.len(),
    ensures
        manifest_chunks_ms(m, n).count(drop_at(m[k], j)) == (if k < n { 1int } else { 0int }),
    decreases n,
{
    if n > 0 {
        lemma_chunk_count(m, n - 1, k, j);
        let d = drop_at(m[k], j);
        if n - 1 == k {
            lemma_file_chunk_count(m[k], m[k].lengths.len() as int, j, d);
        } else {
            assert(m[n - 1].path != m[k].path);
            lemma_file_chunk_other(m[n - 1], m[n - 1].lengths.len() as int, d);
        }
    }
}

} // verus!
