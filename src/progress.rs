//! Progress accounting of one run: per-bucket byte counters, throughput
//! sampling into a rolling window, and throttled publication to the UI.
//! Times are milliseconds on a monotonic clock supplied by the caller.

use vstd::prelude::*;
use crate::manager::DownloadManagerSignal;
use crate::rolling::{recent_mean, seq_sum, lemma_sum_update, lemma_sum_bound, RollingProgressWindow};

verus! {

/// Least time between two throughput samples.
pub const SAMPLE_INTERVAL_MS: u64 = 20;

/// Least time between two publications to the UI.
pub const PUBLISH_INTERVAL_MS: u64 = 250;

/// Number of samples the rolling window keeps.
pub const ROLLING_WINDOW_SIZE: usize = 1000;

/// Whether a throttled step may run at `now`, given when it last ran.
pub open spec fn due(last: Option<u64>, now: u64, period: u64) -> bool {
    match last {
        None => true,
        Some(t) => now as int >= t as int + period as int,
    }
}

/// Seconds left at `kbps` kilobytes per second, treating a rate below one as one.
pub open spec fn secs_remaining(bytes_remaining: int, kbps: int) -> int {
    (bytes_remaining / 1000) / (if kbps < 1 { 1 } else { kbps })
}

/// Bytes added by a counter update, capped so the total stays within `max`.
pub open spec fn capped(amount: int, total: int, max: int) -> int {
    if amount <= max - total { amount } else { max - total }
}

pub struct ProgressObject {
    max: usize,
    progress_instances: Vec<usize>,
    total: usize,
    start: u64,
    last_update_time: u64,
    bytes_last_update: usize,
    last_sample: Option<u64>,
    last_publish: Option<u64>,
    rolling: RollingProgressWindow<1000>,
}

impl ProgressObject {
    pub closed spec fn wf(&self) -> bool {
        &&& self.total as int == seq_sum(self.progress_instances@)
        &&& self.total <= self.max
        &&& self.bytes_last_update <= self.total
        &&& self.rolling.wf()
    }

    /// Byte total of a complete run.
    pub closed spec fn max_spec(&self) -> int {
        self.max as int
    }

    /// Bytes counted per bucket.
    pub closed spec fn counters(&self) -> Seq<usize> {
        self.progress_instances@
    }

    /// Throughput samples since the last reset, in kilobytes per second.
    pub closed spec fn samples(&self) -> Seq<usize> {
        self.rolling.samples()
    }

    /// When the run started.
    pub closed spec fn started_at(&self) -> u64 {
        self.start
    }

    pub closed spec fn last_sample(&self) -> Option<u64> {
        self.last_sample
    }

    pub closed spec fn last_publish(&self) -> Option<u64> {
        self.last_publish
    }

    /// Bytes counted at the last sample, plus bytes skipped since.
    pub closed spec fn anchor(&self) -> int {
        self.bytes_last_update as int
    }

    pub closed spec fn anchor_time(&self) -> u64 {
        self.last_update_time
    }

    pub open spec fn sum_spec(&self) -> int {
        seq_sum(self.counters())
    }

    fn zeros(length: usize) -> (r: Vec<usize>)
        ensures
            r@.len() == length,
            seq_sum(r@) == 0,
            forall|i: int| 0 <= i < length ==> r@[i] == 0,
    {
        let mut v: Vec<usize> = Vec::new();
        let mut i: usize = 0;
        while i < length
            invariant
                i <= length,
                v@.len() == i,
                seq_sum(v@) == 0,
                forall|t: int| 0 <= t < i ==> v@[t] == 0,
            decreases length - i,
        {
            proof {
                crate::rolling::lemma_sum_push(v@, 0);
            }
            v.push(0);
            i = i + 1;
        }
        v
    }

    /// Counters for `length` buckets, all zero, against a total of `max` bytes.
    pub fn new(max: usize, length: usize, now: u64) -> (r: Self)
        ensures
            r.wf(),
            r.max_spec() == max,
            r.counters().len() == length,
            r.sum_spec() == 0,
            r.samples().len() == 0,
            r.last_sample() is None,
            r.last_publish() is None,
            r.anchor_time() == now,
            r.started_at() == now,
    {
        ProgressObject {
            max,
            progress_instances: Self::zeros(length),
            total: 0,
            start: now,
            last_update_time: now,
            bytes_last_update: 0,
            last_sample: None,
            last_publish: None,
            rolling: RollingProgressWindow::new(),
        }
    }

    /// Marks `now` as the start of the run.
    pub fn set_time_now(&mut self, now: u64)
        requires
            old(self).wf(),
        ensures
            final(self).wf(),
            final(self).started_at() == now,
            final(self).counters() == old(self).counters(),
            final(self).max_spec() == old(self).max_spec(),
    {
        self.start = now;
    }

    /// When the run started.
    pub fn start_time(&self) -> (r: u64)
        ensures
            r == self.started_at(),
    {
        self.start
    }

    /// Bytes counted over all buckets.
    pub fn sum(&self) -> (r: usize)
        requires
            self.wf(),
        ensures
            r as int == self.sum_spec(),
            r as int <= self.max_spec(),
    {
        self.total
    }

    /// Zeroes the counters, the sample anchor and the rolling window.
    pub fn reset(&mut self, now: u64)
        requires
            old(self).wf(),
        ensures
            final(self).wf(),
            final(self).counters().len() == old(self).counters().len(),
            final(self).sum_spec() == 0,
            forall|i: int| 0 <= i < final(self).counters().len() ==> final(self).counters()[i] == 0,
            final(self).max_spec() == old(self).max_spec(),
            final(self).samples().len() == 0,
            final(self).anchor() == 0,
            final(self).started_at() == now,
    {
        self.start = now;
        self.bytes_last_update = 0;
        self.rolling.reset();
        let n = self.progress_instances.len();
        self.progress_instances = Self::zeros(n);
        self.total = 0;
    }

    pub fn get_max(&self) -> (r: usize)
        ensures
            r as int == self.max_spec(),
    {
        self.max
    }

    /// Sets the byte total of a complete run; it may not fall below what is counted.
    pub fn set_max(&mut self, new_max: usize)
        requires
            old(self).wf(),
            old(self).sum_spec() <= new_max,
        ensures
            final(self).wf(),
            final(self).max_spec() == new_max,
            final(self).counters() == old(self).counters(),
    {
        self.max = new_max;
    }

    /// Replaces the counters by `length` zeroed ones.
    pub fn set_size(&mut self, length: usize)
        requires
            old(self).wf(),
        ensures
            final(self).wf(),
            final(self).counters().len() == length,
            final(self).sum_spec() == 0,
            final(self).max_spec() == old(self).max_spec(),
            final(self).samples() == old(self).samples(),
    {
        self.progress_instances = Self::zeros(length);
        self.total = 0;
        self.bytes_last_update = 0;
    }

    /// Number of counters.
    pub fn size(&self) -> (r: usize)
        ensures
            r == self.counters().len(),
    {
        self.progress_instances.len()
    }

    /// Bytes counted for one bucket.
    pub fn get(&self, index: usize) -> (r: usize)
        requires
            index < self.counters().len(),
        ensures
            r == self.counters()[index as int],
    {
        self.progress_instances[index]
    }

    fn bump(&mut self, index: usize, amount: usize) -> (added: usize)
        requires
            old(self).wf(),
            index < old(self).counters().len(),
        ensures
            final(self).wf(),
            added as int == capped(amount as int, old(self).sum_spec(), old(self).max_spec()),
            final(self).counters() == old(self).counters().update(
                index as int,
                (old(self).counters()[index as int] + added) as usize,
            ),
            final(self).sum_spec() == old(self).sum_spec() + added,
            final(self).max == old(self).max,
            final(self).bytes_last_update == old(self).bytes_last_update,
            final(self).rolling == old(self).rolling,
            final(self).last_sample == old(self).last_sample,
            final(self).last_publish == old(self).last_publish,
            final(self).last_update_time == old(self).last_update_time,
    {
        let room = self.max - self.total;
        let added = if amount <= room { amount } else { room };
        let ghost before = self.progress_instances@;
        proof {
            lemma_sum_update(before, index as int, (before[index as int] + added) as usize);
            lemma_counter_le_sum(before, index as int);
        }
        let v = self.progress_instances[index] + added;
        self.progress_instances.set(index, v);
        self.total = self.total + added;
        added
    }

    /// Counts bytes that were already on disk: they raise the bucket's counter
    /// and the sample anchor alike, so they never show up as throughput.
    pub fn skip(&mut self, index: usize, amount: usize)
        requires
            old(self).wf(),
            index < old(self).counters().len(),
        ensures
            final(self).wf(),
            final(self).counters() == old(self).counters().update(
                index as int,
                (old(self).counters()[index as int] + capped(amount as int, old(self).sum_spec(), old(self).max_spec())) as usize,
            ),
            final(self).anchor() == old(self).anchor() + capped(amount as int, old(self).sum_spec(), old(self).max_spec()),
            final(self).sum_spec() == old(self).sum_spec() + capped(amount as int, old(self).sum_spec(), old(self).max_spec()),
            final(self).max_spec() == old(self).max_spec(),
            final(self).samples() == old(self).samples(),
            final(self).last_publish() == old(self).last_publish(),
    {
        let added = self.bump(index, amount);
        self.bytes_last_update = self.bytes_last_update + added;
    }

    /// Counts downloaded bytes. At most every `SAMPLE_INTERVAL_MS` this takes a
    /// throughput sample (bytes since the anchor over milliseconds since the
    /// last sample, that is kilobytes per second); a sample publishes the mean
    /// throughput and the seconds remaining at most every `PUBLISH_INTERVAL_MS`.
    /// The returned signals are to be posted to the manager.
    pub fn add(&mut self, index: usize, amount: usize, now: u64) -> (r: Vec<DownloadManagerSignal>)
        requires
            old(self).wf(),
            index < old(self).counters().len(),
        ensures
            final(self).wf(),
            final(self).max_spec() == old(self).max_spec(),
            final(self).counters() == old(self).counters().update(
                index as int,
                (old(self).counters()[index as int] + capped(amount as int, old(self).sum_spec(), old(self).max_spec())) as usize,
            ),
            !due(old(self).last_sample(), now, SAMPLE_INTERVAL_MS) ==> {
                &&& final(self).samples() == old(self).samples()
                &&& final(self).last_sample() == old(self).last_sample()
                &&& final(self).anchor() == old(self).anchor()
            },
            due(old(self).last_sample(), now, SAMPLE_INTERVAL_MS) ==> {
                let elapsed = if now >= old(self).anchor_time() { now - old(self).anchor_time() } else { 0 };
                let bytes = final(self).sum_spec() - old(self).anchor();
                &&& final(self).samples() == old(self).samples().push(
                    (bytes / (if elapsed < 1 { 1 } else { elapsed as int })) as usize,
                )
                &&& final(self).last_sample() == Some(now)
                &&& final(self).anchor() == final(self).sum_spec()
                &&& final(self).anchor_time() == now
            },
            r@.len() > 0 ==> {
                &&& due(old(self).last_sample(), now, SAMPLE_INTERVAL_MS)
                &&& due(old(self).last_publish(), now, PUBLISH_INTERVAL_MS)
                &&& final(self).last_publish() == Some(now)
            },
            r@.len() == 0 ==> final(self).last_publish() == old(self).last_publish(),
            (due(old(self).last_sample(), now, SAMPLE_INTERVAL_MS) && due(
                old(self).last_publish(),
                now,
                PUBLISH_INTERVAL_MS,
            )) ==> {
                let kbps = recent_mean(final(self).samples(), ROLLING_WINDOW_SIZE as nat);
                let secs = secs_remaining(final(self).max_spec() - final(self).sum_spec(), kbps);
                &&& r@.len() == 2
                &&& r@[0] == DownloadManagerSignal::UpdateUIStats(kbps as usize, secs as usize)
                &&& r@[1] == DownloadManagerSignal::UpdateUIQueue
            },
    {
        self.bump(index, amount);
        let sample_due = match self.last_sample {
            None => true,
            Some(t) => now >= t && now - t >= SAMPLE_INTERVAL_MS,
        };
        if !sample_due {
            return Vec::new();
        }
        let elapsed = if now >= self.last_update_time { now - self.last_update_time } else { 0 };
        self.last_update_time = now;
        self.last_sample = Some(now);
        let bytes = self.total - self.bytes_last_update;
        self.bytes_last_update = self.total;
        let divisor: u64 = if elapsed < 1 { 1 } else { elapsed };
        let kbps = ((bytes as u64) / divisor) as usize;
        proof {
            assert((bytes as u64) / divisor <= bytes) by (nonlinear_arith)
                requires divisor >= 1;
        }
        self.rolling.update(kbps);
        let publish_due = match self.last_publish {
            None => true,
            Some(t) => now >= t && now - t >= PUBLISH_INTERVAL_MS,
        };
        if !publish_due {
            return Vec::new();
        }
        self.last_publish = Some(now);
        let average = self.rolling.get_average();
        let remaining = self.max - self.total;
        let rate = if average < 1 { 1 } else { average };
        let secs = (remaining / 1000) / rate;
        vec![DownloadManagerSignal::UpdateUIStats(average, secs), DownloadManagerSignal::UpdateUIQueue]
    }
}

/// The byte total of a run is a `usize`.
pub proof fn lemma_max_fits(p: ProgressObject)
    ensures
        0 <= p.max_spec() <= usize::MAX,
{
}

/// No counter holds more than the total counted, so the total never passes
/// the run's byte total.
pub proof fn lemma_counter_within_sum(p: ProgressObject, i: int)
    requires
        p.wf(),
        0 <= i < p.counters().len(),
    ensures
        p.counters()[i] <= p.sum_spec(),
        p.sum_spec() <= p.max_spec(),
{
    lemma_counter_le_sum(p.counters(), i);
}

proof fn lemma_counter_le_sum(s: Seq<usize>, i: int)
    requires
        0 <= i < s.len(),
    ensures
        s[i] <= seq_sum(s),
    decreases s.len(),
{
    lemma_sum_bound(s.drop_last());
    if i < s.len() - 1 {
        lemma_counter_le_sum(s.drop_last(), i);
    }
}

} // verus!
