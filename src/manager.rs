//! The queue manager: registry and ordered queue of downloads, driven by
//! signals. Each signal is decided here; the actions that come out of a
//! decision (spawning and joining the worker, agent callbacks, UI events)
//! are carried out by the caller.

use vstd::prelude::*;
use crate::types::{ApplicationDownloadError, DownloadManagerStatus, DownloadStatus, DownloadableMetadata, MetaView};

verus! {

/// A request to the queue manager.
pub enum DownloadManagerSignal {
    /// Start the head of the queue if nothing runs.
    Go,
    /// Stop the running download and wait for its worker.
    Stop,
    /// The running download finished and validated.
    Completed(DownloadableMetadata),
    /// Add a download at the back of the queue.
    Queue(DownloadableMetadata),
    /// The running download failed.
    Error(ApplicationDownloadError),
    /// Publish the queue to the UI.
    UpdateUIQueue,
    /// Publish throughput (kilobytes per second, seconds remaining) to the UI.
    UpdateUIStats(usize, usize),
    /// Stop everything and end the manager loop.
    Finish,
    /// Remove a download, stopping it first if it runs.
    Cancel(DownloadableMetadata),
}

/// Work that a decision hands to the caller, in order.
pub enum ManagerAction {
    OnQueued(DownloadableMetadata),
    /// Spawn the worker that downloads then validates this key, with its control flag set to go.
    StartDownload(DownloadableMetadata),
    /// Set the running download's control flag to stop, without waiting.
    StopWorker,
    /// Set the running download's control flag to stop and join its worker.
    StopAndWait,
    OnCancelled(DownloadableMetadata),
    OnError(DownloadableMetadata, ApplicationDownloadError),
    /// The agent of this key leaves the registry.
    DropAgent(DownloadableMetadata),
    EmitQueue,
    EmitStats(usize, usize),
    /// Post a `Go` signal to the manager itself.
    PostGo,
    Terminate,
}

pub enum ActionView {
    OnQueued(MetaView),
    StartDownload(MetaView),
    StopWorker,
    StopAndWait,
    OnCancelled(MetaView),
    OnError(MetaView, ApplicationDownloadError),
    DropAgent(MetaView),
    EmitQueue,
    EmitStats(usize, usize),
    PostGo,
    Terminate,
}

impl View for ManagerAction {
    type V = ActionView;

    open spec fn view(&self) -> ActionView {
        match self {
            ManagerAction::OnQueued(k) => ActionView::OnQueued(k@),
            ManagerAction::StartDownload(k) => ActionView::StartDownload(k@),
            ManagerAction::StopWorker => ActionView::StopWorker,
            ManagerAction::StopAndWait => ActionView::StopAndWait,
            ManagerAction::OnCancelled(k) => ActionView::OnCancelled(k@),
            ManagerAction::OnError(k, e) => ActionView::OnError(k@, *e),
            ManagerAction::DropAgent(k) => ActionView::DropAgent(k@),
            ManagerAction::EmitQueue => ActionView::EmitQueue,
            ManagerAction::EmitStats(a, b) => ActionView::EmitStats(*a, *b),
            ManagerAction::PostGo => ActionView::PostGo,
            ManagerAction::Terminate => ActionView::Terminate,
        }
    }
}

pub open spec fn actions_view(v: Seq<ManagerAction>) -> Seq<ActionView> {
    v.map_values(|a: ManagerAction| a@)
}

pub open spec fn keys_view(v: Seq<DownloadableMetadata>) -> Seq<MetaView> {
    v.map_values(|k: DownloadableMetadata| k@)
}

/// Mathematical state of the manager.
pub struct ManagerView {
    pub queue: Seq<MetaView>,
    pub registry: Seq<MetaView>,
    /// Run state of each registered agent, position for position with `registry`.
    pub statuses: Seq<DownloadStatus>,
    pub status: DownloadManagerStatus,
    pub finished: bool,
}

/// Position of the first occurrence of `k`, or `s.len()`.
pub open spec fn key_index(s: Seq<MetaView>, k: MetaView) -> int
    decreases s.len(),
{
    if s.len() == 0 {
        0
    } else if s[0] == k {
        0
    } else {
        1 + key_index(s.drop_first(), k)
    }
}

/// `s` without the first occurrence of `k`.
pub open spec fn remove_key(s: Seq<MetaView>, k: MetaView) -> Seq<MetaView> {
    if key_index(s, k) < s.len() {
        s.remove(key_index(s, k))
    } else {
        s
    }
}

/// The registry holds an agent, with its run state, for exactly the keys of
/// the queue, each key once.
pub open spec fn manager_wf(m: ManagerView) -> bool {
    &&& m.queue.no_duplicates()
    &&& m.registry.no_duplicates()
    &&& forall|k: MetaView| m.queue.contains(k) <==> m.registry.contains(k)
    &&& m.statuses.len() == m.registry.len()
}

/// Run state of the registered agent of `k`.
pub open spec fn status_of(m: ManagerView, k: MetaView) -> DownloadStatus {
    m.statuses[key_index(m.registry, k)]
}

/// Whether the head of the queue has a run under way.
pub open spec fn head_running(m: ManagerView) -> bool {
    m.queue.len() > 0 && status_of(m, m.queue[0]) != DownloadStatus::Queued
}

/// The run states without the one of `k`.
pub open spec fn remove_status(m: ManagerView, k: MetaView) -> Seq<DownloadStatus> {
    if key_index(m.registry, k) < m.registry.len() {
        m.statuses.remove(key_index(m.registry, k))
    } else {
        m.statuses
    }
}

/// Run states after starting `head`: it downloads, every other agent is queued.
pub open spec fn go_statuses(registry: Seq<MetaView>, statuses: Seq<DownloadStatus>, head: MetaView) -> Seq<DownloadStatus> {
    Seq::new(statuses.len(), |i: int| if registry[i] == head { DownloadStatus::Downloading } else { DownloadStatus::Queued })
}

/// `OnQueued` for each of the first `n` agents, other than `head`, that is not queued.
pub open spec fn requeue_actions(registry: Seq<MetaView>, statuses: Seq<DownloadStatus>, head: MetaView, n: int) -> Seq<ActionView>
    decreases n,
{
    if n <= 0 {
        Seq::empty()
    } else {
        let rest = requeue_actions(registry, statuses, head, n - 1);
        if registry[n - 1] != head && statuses[n - 1] != DownloadStatus::Queued {
            rest.push(ActionView::OnQueued(registry[n - 1]))
        } else {
            rest
        }
    }
}

pub open spec fn queue_next(m: ManagerView, k: MetaView) -> (ManagerView, Seq<ActionView>) {
    if m.registry.contains(k) {
        (m, Seq::empty())
    } else {
        (
            ManagerView {
                queue: m.queue.push(k),
                registry: m.registry.push(k),
                statuses: m.statuses.push(DownloadStatus::Queued),
                ..m
            },
            seq![ActionView::OnQueued(k), ActionView::EmitQueue],
        )
    }
}

/// Starts the head of the queue when it is queued: every other agent that is
/// not queued is marked queued first, then the head's worker is spawned.
pub open spec fn go_next(m: ManagerView) -> (ManagerView, Seq<ActionView>) {
    if m.queue.len() == 0 || status_of(m, m.queue[0]) != DownloadStatus::Queued {
        (m, Seq::empty())
    } else {
        let head = m.queue[0];
        (
            ManagerView {
                statuses: go_statuses(m.registry, m.statuses, head),
                status: DownloadManagerStatus::Downloading,
                ..m
            },
            requeue_actions(m.registry, m.statuses, head, m.registry.len() as int).push(
                ActionView::StartDownload(head),
            ),
        )
    }
}

/// Stops a running head: its flag goes to stop, the manager is paused and
/// the head is queued again, so that a later `Go` resumes it.
pub open spec fn stop_next(m: ManagerView) -> (ManagerView, Seq<ActionView>) {
    if head_running(m) {
        let head = m.queue[0];
        (
            ManagerView {
                statuses: m.statuses.update(key_index(m.registry, head), DownloadStatus::Queued),
                status: DownloadManagerStatus::Paused,
                ..m
            },
            seq![ActionView::StopWorker, ActionView::OnQueued(head)],
        )
    } else {
        (m, Seq::empty())
    }
}

pub open spec fn completed_next(m: ManagerView, k: MetaView) -> (ManagerView, Seq<ActionView>) {
    if m.queue.len() > 0 && m.queue[0] == k {
        (
            ManagerView {
                queue: m.queue.drop_first(),
                registry: remove_key(m.registry, k),
                statuses: remove_status(m, k),
                ..m
            },
            seq![ActionView::DropAgent(k), ActionView::EmitQueue, ActionView::PostGo],
        )
    } else {
        (m, seq![ActionView::EmitQueue, ActionView::PostGo])
    }
}

pub open spec fn cancel_next(m: ManagerView, k: MetaView) -> (ManagerView, Seq<ActionView>) {
    if m.queue.len() > 0 && m.queue[0] == k {
        (
            ManagerView {
                queue: m.queue.drop_first(),
                registry: remove_key(m.registry, k),
                statuses: remove_status(m, k),
                status: DownloadManagerStatus::Paused,
                ..m
            },
            seq![
                ActionView::StopAndWait,
                ActionView::OnCancelled(k),
                ActionView::DropAgent(k),
                ActionView::PostGo,
                ActionView::EmitQueue,
            ],
        )
    } else if m.queue.contains(k) {
        (
            ManagerView {
                queue: remove_key(m.queue, k),
                registry: remove_key(m.registry, k),
                statuses: remove_status(m, k),
                ..m
            },
            seq![
                ActionView::OnCancelled(k),
                ActionView::DropAgent(k),
                ActionView::PostGo,
                ActionView::EmitQueue,
            ],
        )
    } else {
        (m, seq![ActionView::PostGo, ActionView::EmitQueue])
    }
}

pub open spec fn error_next(m: ManagerView, e: ApplicationDownloadError) -> (ManagerView, Seq<ActionView>) {
    if m.queue.len() > 0 {
        let k = m.queue[0];
        (
            ManagerView {
                queue: m.queue.drop_first(),
                registry: remove_key(m.registry, k),
                statuses: remove_status(m, k),
                status: DownloadManagerStatus::Error,
                ..m
            },
            seq![
                ActionView::OnError(k, e),
                ActionView::StopAndWait,
                ActionView::DropAgent(k),
                ActionView::EmitQueue,
            ],
        )
    } else {
        (ManagerView { status: DownloadManagerStatus::Error, ..m }, seq![ActionView::EmitQueue])
    }
}

pub open spec fn finish_next(m: ManagerView) -> (ManagerView, Seq<ActionView>) {
    (
        ManagerView { finished: true, status: DownloadManagerStatus::Paused, ..m },
        seq![ActionView::StopAndWait, ActionView::Terminate],
    )
}

/// The decision for one signal: the next state and the actions, in order.
pub open spec fn signal_next(m: ManagerView, s: DownloadManagerSignal) -> (ManagerView, Seq<ActionView>) {
    match s {
        DownloadManagerSignal::Go => go_next(m),
        DownloadManagerSignal::Stop => stop_next(m),
        DownloadManagerSignal::Completed(k) => completed_next(m, k@),
        DownloadManagerSignal::Queue(k) => queue_next(m, k@),
        DownloadManagerSignal::Error(e) => error_next(m, e),
        DownloadManagerSignal::UpdateUIQueue => (m, seq![ActionView::EmitQueue]),
        DownloadManagerSignal::UpdateUIStats(a, b) => (m, seq![ActionView::EmitStats(a, b)]),
        DownloadManagerSignal::Finish => finish_next(m),
        DownloadManagerSignal::Cancel(k) => cancel_next(m, k@),
    }
}

/// Moving entry `from` to position `to`; the running head stays in place.
pub open spec fn rearrange_next(m: ManagerView, from: int, to: int) -> ManagerView {
    if 0 <= from < m.queue.len() && 0 <= to < m.queue.len() && !(head_running(m) && (from == 0
        || to == 0)) {
        ManagerView { queue: m.queue.remove(from).insert(to, m.queue[from]), ..m }
    } else {
        m
    }
}

/// State of the queue manager.
pub struct DownloadManagerBuilder {
    download_queue: Vec<DownloadableMetadata>,
    download_agent_registry: Vec<DownloadableMetadata>,
    agent_statuses: Vec<DownloadStatus>,
    status: DownloadManagerStatus,
    finished: bool,
}

impl View for DownloadManagerBuilder {
    type V = ManagerView;

    closed spec fn view(&self) -> ManagerView {
        ManagerView {
            queue: keys_view(self.download_queue@),
            registry: keys_view(self.download_agent_registry@),
            statuses: self.agent_statuses@,
            status: self.status,
            finished: self.finished,
        }
    }
}

proof fn lemma_key_index(s: Seq<MetaView>, k: MetaView)
    ensures
        0 <= key_index(s, k) <= s.len(),
        key_index(s, k) < s.len() <==> s.contains(k),
        key_index(s, k) < s.len() ==> s[key_index(s, k)] == k,
        forall|t: int| 0 <= t < key_index(s, k) ==> s[t] != k,
    decreases s.len(),
{
    if s.len() > 0 && s[0] != k {
        lemma_key_index(s.drop_first(), k);
        if s.contains(k) {
            let t = choose|t: int| 0 <= t < s.len() && s[t] == k;
            assert(s.drop_first()[t - 1] == k);
        }
        if s.drop_first().contains(k) {
            let t = choose|t: int| 0 <= t < s.drop_first().len() && s.drop_first()[t] == k;
            assert(s[t + 1] == k);
        }
        assert forall|t: int| 0 <= t < key_index(s, k) implies s[t] != k by {
            if t > 0 {
                assert(s[t] == s.drop_first()[t - 1]);
            }
        }
    }
    if s.len() > 0 && s[0] == k {
        assert(s.contains(k));
    }
}

proof fn lemma_remove_key(s: Seq<MetaView>, k: MetaView)
    requires
        s.no_duplicates(),
    ensures
        remove_key(s, k).no_duplicates(),
        forall|x: MetaView| remove_key(s, k).contains(x) <==> (s.contains(x) && x != k),
{
    lemma_key_index(s, k);
    if key_index(s, k) < s.len() {
        let i = key_index(s, k);
        let r = s.remove(i);
        assert forall|x: MetaView| r.contains(x) <==> (s.contains(x) && x != k) by {
            if r.contains(x) {
                let t = choose|t: int| 0 <= t < r.len() && r[t] == x;
                if t < i {
                    assert(s[t] == x);
                } else {
                    assert(s[t + 1] == x);
                }
            }
            if s.contains(x) && x != k {
                let t = choose|t: int| 0 <= t < s.len() && s[t] == x;
                if t < i {
                    assert(r[t] == x);
                } else {
                    assert(t != i);
                    assert(r[t - 1] == x);
                }
            }
        }
    }
}

fn find_key(v: &Vec<DownloadableMetadata>, k: &DownloadableMetadata) -> (r: usize)
    ensures
        r as int == key_index(keys_view(v@), k@),
{
    let mut i: usize = 0;
    assert(keys_view(v@).subrange(0, v@.len() as int) =~= keys_view(v@));
    while i < v.len()
        invariant
            i <= v.len(),
            key_index(keys_view(v@), k@) == i + key_index(
                keys_view(v@).subrange(i as int, v@.len() as int),
                k@,
            ),
        decreases v.len() - i,
    {
        let ghost rest = keys_view(v@).subrange(i as int, v@.len() as int);
        if v[i].same_as(k) {
            return i;
        }
        assert(rest.drop_first() =~= keys_view(v@).subrange(i as int + 1, v@.len() as int));
        i = i + 1;
    }
    assert(keys_view(v@).subrange(i as int, v@.len() as int) =~= Seq::<MetaView>::empty());
    i
}

fn is_queued(s: DownloadStatus) -> (r: bool)
    ensures
        r == (s == DownloadStatus::Queued),
{
    match s {
        DownloadStatus::Queued => true,
        _ => false,
    }
}

fn remove_found(v: &mut Vec<DownloadableMetadata>, k: &DownloadableMetadata)
    ensures
        keys_view(final(v)@) == remove_key(keys_view(old(v)@), k@),
{
    let i = find_key(v, k);
    proof {
        lemma_key_index(keys_view(v@), k@);
    }
    if i < v.len() {
        let ghost before = v@;
        v.remove(i);
        assert(keys_view(v@) =~= keys_view(before).remove(i as int));
    }
}

impl DownloadManagerBuilder {
    pub open spec fn wf(&self) -> bool {
        manager_wf(self@)
    }

    /// An idle manager with an empty queue.
    pub fn new() -> (r: Self)
        ensures
            r.wf(),
            r@.queue.len() == 0,
            r@.registry.len() == 0,
            !r@.finished,
            r@.status == DownloadManagerStatus::Empty,
    {
        let r = DownloadManagerBuilder {
            download_queue: Vec::new(),
            download_agent_registry: Vec::new(),
            status: DownloadManagerStatus::Empty,
            agent_statuses: Vec::new(),
            finished: false,
        };
        assert(r@.queue =~= Seq::<MetaView>::empty());
        assert(r@.registry =~= Seq::<MetaView>::empty());
        assert(r@.statuses =~= Seq::<DownloadStatus>::empty());
        r
    }

    /// The queue in order.
    pub fn queue(&self) -> (r: Vec<DownloadableMetadata>)
        ensures
            keys_view(r@) == self@.queue,
    {
        let mut r: Vec<DownloadableMetadata> = Vec::new();
        let mut i: usize = 0;
        while i < self.download_queue.len()
            invariant
                i <= self.download_queue@.len(),
                keys_view(r@) == keys_view(self.download_queue@).subrange(0, i as int),
            decreases self.download_queue@.len() - i,
        {
            let k = self.download_queue[i].duplicate();
            let ghost before = r@;
            r.push(k);
            assert(keys_view(r@) =~= keys_view(before).push(k@));
            assert(keys_view(self.download_queue@).subrange(0, i as int + 1) =~= keys_view(
                self.download_queue@,
            ).subrange(0, i as int).push(k@));
            i = i + 1;
        }
        assert(keys_view(self.download_queue@).subrange(0, i as int) =~= keys_view(
            self.download_queue@,
        ));
        r
    }

    pub fn status(&self) -> (r: DownloadManagerStatus)
        ensures
            r == self@.status,
    {
        self.status
    }

    pub fn is_finished(&self) -> (r: bool)
        ensures
            r == self@.finished,
    {
        self.finished
    }

    fn manage_queue_signal(&mut self, k: DownloadableMetadata) -> (r: Vec<ManagerAction>)
        requires
            old(self).wf(),
        ensures
            final(self).wf(),
            (final(self)@, actions_view(r@)) == queue_next(old(self)@, k@),
    {
        let ghost sig = DownloadManagerSignal::Queue(k);
        proof {
            lemma_signal_keeps_wf(old(self)@, sig);
        }
        let i = find_key(&self.download_agent_registry, &k);
        proof {
            lemma_key_index(self@.registry, k@);
        }
        if i < self.download_agent_registry.len() {
            let r: Vec<ManagerAction> = Vec::new();
            assert(actions_view(r@) =~= Seq::<ActionView>::empty());
            return r;
        }
        let ghost q0 = self.download_queue@;
        let ghost r0 = self.download_agent_registry@;
        self.download_queue.push(k.duplicate());
        self.download_agent_registry.push(k.duplicate());
        self.agent_statuses.push(DownloadStatus::Queued);
        assert(keys_view(self.download_queue@) =~= keys_view(q0).push(k@));
        assert(keys_view(self.download_agent_registry@) =~= keys_view(r0).push(k@));
        let r = vec![ManagerAction::OnQueued(k), ManagerAction::EmitQueue];
        assert(actions_view(r@) =~= seq![ActionView::OnQueued(k@), ActionView::EmitQueue]);
        r
    }

    fn manage_go_signal(&mut self) -> (r: Vec<ManagerAction>)
        requires
            old(self).wf(),
        ensures
            final(self).wf(),
            (final(self)@, actions_view(r@)) == go_next(old(self)@),
    {
        let ghost sig = DownloadManagerSignal::Go;
        proof {
            lemma_signal_keeps_wf(old(self)@, sig);
        }
        if self.download_queue.len() == 0 {
            let r: Vec<ManagerAction> = Vec::new();
            assert(actions_view(r@) =~= Seq::<ActionView>::empty());
            return r;
        }
        let head = self.download_queue[0].duplicate();
        assert(self@.queue[0] == head@);
        assert(self@.queue.contains(head@));
        let hi = self.agent_index(&head);
        if !is_queued(self.agent_statuses[hi]) {
            let r: Vec<ManagerAction> = Vec::new();
            assert(actions_view(r@) =~= Seq::<ActionView>::empty());
            return r;
        }
        let ghost m = self@;
        let mut actions: Vec<ManagerAction> = Vec::new();
        let mut statuses: Vec<DownloadStatus> = Vec::new();
        let n = self.download_agent_registry.len();
        let mut i: usize = 0;
        while i < n
            invariant
                m == self@,
                manager_wf(m),
                n == m.registry.len(),
                i <= n,
                actions_view(actions@) == requeue_actions(m.registry, m.statuses, head@, i as int),
                statuses@ == go_statuses(m.registry, m.statuses, head@).subrange(0, i as int),
            decreases n - i,
        {
            let same = self.download_agent_registry[i].same_as(&head);
            assert(self.download_agent_registry@[i as int]@ == m.registry[i as int]);
            if !same && !is_queued(self.agent_statuses[i]) {
                let ghost before = actions@;
                actions.push(ManagerAction::OnQueued(self.download_agent_registry[i].duplicate()));
                assert(actions_view(actions@) =~= actions_view(before).push(ActionView::OnQueued(m.registry[i as int])));
            }
            statuses.push(if same { DownloadStatus::Downloading } else { DownloadStatus::Queued });
            assert(statuses@ =~= go_statuses(m.registry, m.statuses, head@).subrange(0, i as int + 1));
            i = i + 1;
        }
        assert(statuses@ =~= go_statuses(m.registry, m.statuses, head@));
        self.agent_statuses = statuses;
        self.status = DownloadManagerStatus::Downloading;
        let ghost before = actions@;
        actions.push(ManagerAction::StartDownload(head));
        assert(actions_view(actions@) =~= actions_view(before).push(ActionView::StartDownload(m.queue[0])));
        actions
    }

    /// Position of a registered key in the registry.
    fn agent_index(&self, k: &DownloadableMetadata) -> (r: usize)
        requires
            self.wf(),
            self@.queue.contains(k@),
        ensures
            r == key_index(self@.registry, k@),
            r < self@.registry.len(),
            self@.registry[r as int] == k@,
    {
        proof {
            lemma_key_index(self@.registry, k@);
        }
        find_key(&self.download_agent_registry, k)
    }

    fn head_running(&self) -> (r: bool)
        requires
            self.wf(),
        ensures
            r == head_running(self@),
    {
        if self.download_queue.len() == 0 {
            return false;
        }
        assert(self@.queue.contains(self@.queue[0]));
        let hi = self.agent_index(&self.download_queue[0]);
        !is_queued(self.agent_statuses[hi])
    }

    fn manage_stop_signal(&mut self) -> (r: Vec<ManagerAction>)
        requires
            old(self).wf(),
        ensures
            final(self).wf(),
            (final(self)@, actions_view(r@)) == stop_next(old(self)@),
    {
        let ghost sig = DownloadManagerSignal::Stop;
        proof {
            lemma_signal_keeps_wf(old(self)@, sig);
        }
        if !self.head_running() {
            let r: Vec<ManagerAction> = Vec::new();
            assert(actions_view(r@) =~= Seq::<ActionView>::empty());
            return r;
        }
        let head = self.download_queue[0].duplicate();
        assert(self@.queue.contains(self@.queue[0]));
        let hi = self.agent_index(&head);
        self.agent_statuses.set(hi, DownloadStatus::Queued);
        self.status = DownloadManagerStatus::Paused;
        let r = vec![ManagerAction::StopWorker, ManagerAction::OnQueued(head)];
        assert(actions_view(r@) =~= seq![ActionView::StopWorker, ActionView::OnQueued(old(self)@.queue[0])]);
        r
    }

    /// Removes the agent of `k` from the registry.
    fn remove_agent(&mut self, k: &DownloadableMetadata)
        requires
            old(self).agent_statuses@.len() == old(self).download_agent_registry@.len(),
        ensures
            final(self)@ == (ManagerView {
                registry: remove_key(old(self)@.registry, k@),
                statuses: remove_status(old(self)@, k@),
                ..old(self)@
            }),
    {
        let i = find_key(&self.download_agent_registry, k);
        proof {
            lemma_key_index(keys_view(self.download_agent_registry@), k@);
        }
        if i < self.download_agent_registry.len() {
            let ghost before = self.download_agent_registry@;
            self.download_agent_registry.remove(i);
            self.agent_statuses.remove(i);
            assert(keys_view(self.download_agent_registry@) =~= keys_view(before).remove(i as int));
        }
    }

    fn is_front(&self, k: &DownloadableMetadata) -> (r: bool)
        ensures
            r == (self@.queue.len() > 0 && self@.queue[0] == k@),
    {
        self.download_queue.len() > 0 && self.download_queue[0].same_as(k)
    }

    fn pop_front_key(&mut self)
        requires
            old(self)@.queue.len() > 0,
            old(self).wf(),
        ensures
            final(self)@ == (ManagerView {
                queue: old(self)@.queue.drop_first(),
                registry: remove_key(old(self)@.registry, old(self)@.queue[0]),
                statuses: remove_status(old(self)@, old(self)@.queue[0]),
                ..old(self)@
            }),
    {
        let front = self.download_queue.remove(0);
        self.remove_agent(&front);
        assert(self@.queue =~= old(self)@.queue.drop_first());
    }

    fn manage_completed_signal(&mut self, k: DownloadableMetadata) -> (r: Vec<ManagerAction>)
        requires
            old(self).wf(),
        ensures
            final(self).wf(),
            (final(self)@, actions_view(r@)) == completed_next(old(self)@, k@),
    {
        let ghost sig = DownloadManagerSignal::Completed(k);
        proof {
            lemma_signal_keeps_wf(old(self)@, sig);
        }
        if self.is_front(&k) {
            self.pop_front_key();
            let r = vec![ManagerAction::DropAgent(k), ManagerAction::EmitQueue, ManagerAction::PostGo];
            assert(actions_view(r@) =~= seq![
                ActionView::DropAgent(k@),
                ActionView::EmitQueue,
                ActionView::PostGo,
            ]);
            r
        } else {
            let r = vec![ManagerAction::EmitQueue, ManagerAction::PostGo];
            assert(actions_view(r@) =~= seq![ActionView::EmitQueue, ActionView::PostGo]);
            r
        }
    }

    fn manage_cancel_signal(&mut self, k: DownloadableMetadata) -> (r: Vec<ManagerAction>)
        requires
            old(self).wf(),
        ensures
            final(self).wf(),
            (final(self)@, actions_view(r@)) == cancel_next(old(self)@, k@),
    {
        let ghost sig = DownloadManagerSignal::Cancel(k);
        proof {
            lemma_signal_keeps_wf(old(self)@, sig);
        }
        if self.is_front(&k) {
            self.pop_front_key();
            self.status = DownloadManagerStatus::Paused;
            let r = vec![
                ManagerAction::StopAndWait,
                ManagerAction::OnCancelled(k.duplicate()),
                ManagerAction::DropAgent(k),
                ManagerAction::PostGo,
                ManagerAction::EmitQueue,
            ];
            assert(actions_view(r@) =~= seq![
                ActionView::StopAndWait,
                ActionView::OnCancelled(k@),
                ActionView::DropAgent(k@),
                ActionView::PostGo,
                ActionView::EmitQueue,
            ]);
            return r;
        }
        let i = find_key(&self.download_queue, &k);
        proof {
            lemma_key_index(self@.queue, k@);
        }
        if i < self.download_queue.len() {
            remove_found(&mut self.download_queue, &k);
            self.remove_agent(&k);
            let r = vec![
                ManagerAction::OnCancelled(k.duplicate()),
                ManagerAction::DropAgent(k),
                ManagerAction::PostGo,
                ManagerAction::EmitQueue,
            ];
            assert(actions_view(r@) =~= seq![
                ActionView::OnCancelled(k@),
                ActionView::DropAgent(k@),
                ActionView::PostGo,
                ActionView::EmitQueue,
            ]);
            r
        } else {
            let r = vec![ManagerAction::PostGo, ManagerAction::EmitQueue];
            assert(actions_view(r@) =~= seq![ActionView::PostGo, ActionView::EmitQueue]);
            r
        }
    }

    fn manage_error_signal(&mut self, e: ApplicationDownloadError) -> (r: Vec<ManagerAction>)
        requires
            old(self).wf(),
        ensures
            final(self).wf(),
            (final(self)@, actions_view(r@)) == error_next(old(self)@, e),
    {
        let ghost sig = DownloadManagerSignal::Error(e);
        proof {
            lemma_signal_keeps_wf(old(self)@, sig);
        }
        self.status = DownloadManagerStatus::Error;
        if self.download_queue.len() > 0 {
            let front = self.download_queue[0].duplicate();
            self.pop_front_key();
            let r = vec![
                ManagerAction::OnError(front.duplicate(), e),
                ManagerAction::StopAndWait,
                ManagerAction::DropAgent(front),
                ManagerAction::EmitQueue,
            ];
            assert(actions_view(r@) =~= seq![
                ActionView::OnError(old(self)@.queue[0], e),
                ActionView::StopAndWait,
                ActionView::DropAgent(old(self)@.queue[0]),
                ActionView::EmitQueue,
            ]);
            r
        } else {
            let r = vec![ManagerAction::EmitQueue];
            assert(actions_view(r@) =~= seq![ActionView::EmitQueue]);
            r
        }
    }

    /// Decides one signal: updates the registry and queue and returns the
    /// actions to carry out, in order. The registry keeps exactly the keys of
    /// the queue across every signal.
    pub fn handle_signal(&mut self, signal: DownloadManagerSignal) -> (r: Vec<ManagerAction>)
        requires
            old(self).wf(),
        ensures
            final(self).wf(),
            final(self)@.queue.to_set() == final(self)@.registry.to_set(),
            (final(self)@, actions_view(r@)) == signal_next(old(self)@, signal),
    {
        let ghost s = signal;
        let r = match signal {
            DownloadManagerSignal::Go => self.manage_go_signal(),
            DownloadManagerSignal::Stop => self.manage_stop_signal(),
            DownloadManagerSignal::Completed(k) => self.manage_completed_signal(k),
            DownloadManagerSignal::Queue(k) => self.manage_queue_signal(k),
            DownloadManagerSignal::Error(e) => self.manage_error_signal(e),
            DownloadManagerSignal::UpdateUIQueue => {
                let r = vec![ManagerAction::EmitQueue];
                assert(actions_view(r@) =~= seq![ActionView::EmitQueue]);
                r
            },
            DownloadManagerSignal::UpdateUIStats(a, b) => {
                let r = vec![ManagerAction::EmitStats(a, b)];
                assert(actions_view(r@) =~= seq![ActionView::EmitStats(a, b)]);
                r
            },
            DownloadManagerSignal::Finish => {
                    self.finished = true;
                self.status = DownloadManagerStatus::Paused;
                let r = vec![ManagerAction::StopAndWait, ManagerAction::Terminate];
                assert(actions_view(r@) =~= seq![ActionView::StopAndWait, ActionView::Terminate]);
                r
            },
            DownloadManagerSignal::Cancel(k) => self.manage_cancel_signal(k),
        };
        proof {
            lemma_registry_matches_queue(old(self)@, s);
        }
        r
    }

    /// Moves the entry at `from` to position `to`. Out-of-range positions,
    /// and moves that would displace a running head, change nothing.
    pub fn rearrange(&mut self, from: usize, to: usize) -> (r: bool)
        requires
            old(self).wf(),
        ensures
            final(self).wf(),
            final(self)@ == rearrange_next(old(self)@, from as int, to as int),
            r == (final(self)@ != old(self)@ || (from == to && from < old(self)@.queue.len()
                && !(head_running(old(self)@) && from == 0))),
    {
        let n = self.download_queue.len();
        if from >= n || to >= n || (self.head_running() && (from == 0 || to == 0)) {
            return false;
        }
        let ghost q = self@.queue;
        let k = self.download_queue.remove(from);
        self.download_queue.insert(to, k);
        assert(self@.queue =~= q.remove(from as int).insert(to as int, q[from as int]));
        proof {
            lemma_rearrange_keeps_wf(old(self)@, from as int, to as int);
            if from != to {
                assert(self@.queue[to as int] == q[from as int]);
                assert(q[to as int] != q[from as int]);
                assert(self@.queue != q);
            }
        }
        true
    }
}

proof fn lemma_rearrange_keeps_wf(m: ManagerView, from: int, to: int)
    requires
        manager_wf(m),
    ensures
        manager_wf(rearrange_next(m, from, to)),
{
    let r = rearrange_next(m, from, to);
    if r != m {
        let q = m.queue;
        let mid = q.remove(from);
        let nq = r.queue;
        assert forall|x: MetaView| nq.contains(x) <==> q.contains(x) by {
            if q.contains(x) {
                let t = choose|t: int| 0 <= t < q.len() && q[t] == x;
                if t == from {
                    assert(nq[to] == x);
                } else {
                    let u = if t < from { t } else { t - 1 };
                    assert(mid[u] == x);
                    let w = if u < to { u } else { u + 1 };
                    assert(nq[w] == x);
                }
            }
            if nq.contains(x) {
                let t = choose|t: int| 0 <= t < nq.len() && nq[t] == x;
                if t == to {
                    assert(q[from] == x);
                } else {
                    let u = if t < to { t } else { t - 1 };
                    assert(mid[u] == x);
                    let w = if u < from { u } else { u + 1 };
                    assert(q[w] == x);
                }
            }
        }
        assert forall|i: int, j: int| 0 <= i < nq.len() && 0 <= j < nq.len() && i != j implies nq[i]
            != nq[j] by {
            let pi = if i == to { from } else {
                let u = if i < to { i } else { i - 1 };
                if u < from { u } else { u + 1 }
            };
            let pj = if j == to { from } else {
                let u = if j < to { j } else { j - 1 };
                if u < from { u } else { u + 1 }
            };
            assert(nq[i] == q[pi]);
            assert(nq[j] == q[pj]);
        }
    }
}

proof fn lemma_pop_keeps_wf(m: ManagerView)
    requires
        manager_wf(m),
        m.queue.len() > 0,
    ensures
        m.queue.drop_first().no_duplicates(),
        remove_key(m.registry, m.queue[0]).no_duplicates(),
        forall|x: MetaView|
            m.queue.drop_first().contains(x) <==> remove_key(m.registry, m.queue[0]).contains(x),
{
    let k = m.queue[0];
    lemma_remove_key(m.registry, k);
    let d = m.queue.drop_first();
    assert forall|x: MetaView| d.contains(x) <==> (m.queue.contains(x) && x != k) by {
        if d.contains(x) {
            let t = choose|t: int| 0 <= t < d.len() && d[t] == x;
            assert(m.queue[t + 1] == x);
        }
        if m.queue.contains(x) && x != k {
            let t = choose|t: int| 0 <= t < m.queue.len() && m.queue[t] == x;
            assert(d[t - 1] == x);
        }
    }
}

proof fn lemma_remove_status_len(m: ManagerView, k: MetaView)
    requires
        manager_wf(m),
    ensures
        remove_status(m, k).len() == remove_key(m.registry, k).len(),
{
    lemma_key_index(m.registry, k);
}

proof fn lemma_signal_keeps_wf(m: ManagerView, s: DownloadManagerSignal)
    requires
        manager_wf(m),
    ensures
        manager_wf(signal_next(m, s).0),
{
    match s {
        DownloadManagerSignal::Completed(k) => lemma_remove_status_len(m, k@),
        DownloadManagerSignal::Cancel(k) => lemma_remove_status_len(m, k@),
        DownloadManagerSignal::Error(_) => if m.queue.len() > 0 {
            lemma_remove_status_len(m, m.queue[0]);
        },
        DownloadManagerSignal::Go => {
            if m.queue.len() > 0 {
                assert(go_statuses(m.registry, m.statuses, m.queue[0]).len() == m.statuses.len());
            }
        },
        _ => {},
    }
    match s {
        DownloadManagerSignal::Queue(k) => {
            if !m.registry.contains(k@) {
                let nq = m.queue.push(k@);
                let nr = m.registry.push(k@);
                assert forall|x: MetaView| nq.contains(x) <==> (m.queue.contains(x) || x == k@) by {
                    if nq.contains(x) && x != k@ {
                        let t = choose|t: int| 0 <= t < nq.len() && nq[t] == x;
                        assert(m.queue[t] == x);
                    }
                    if m.queue.contains(x) {
                        let t = choose|t: int| 0 <= t < m.queue.len() && m.queue[t] == x;
                        assert(nq[t] == x);
                    }
                    if x == k@ {
                        assert(nq[m.queue.len() as int] == x);
                    }
                }
                assert forall|x: MetaView| nr.contains(x) <==> (m.registry.contains(x) || x == k@) by {
                    if nr.contains(x) && x != k@ {
                        let t = choose|t: int| 0 <= t < nr.len() && nr[t] == x;
                        assert(m.registry[t] == x);
                    }
                    if m.registry.contains(x) {
                        let t = choose|t: int| 0 <= t < m.registry.len() && m.registry[t] == x;
                        assert(nr[t] == x);
                    }
                    if x == k@ {
                        assert(nr[m.registry.len() as int] == x);
                    }
                }
                assert(!m.queue.contains(k@));
                assert forall|i: int, j: int| 0 <= i < nq.len() && 0 <= j < nq.len() && i != j implies nq[i]
                    != nq[j] by {
                    if i == m.queue.len() {
                        assert(m.queue.contains(nq[j]));
                    } else if j == m.queue.len() {
                        assert(m.queue.contains(nq[i]));
                    }
                }
                assert forall|i: int, j: int| 0 <= i < nr.len() && 0 <= j < nr.len() && i != j implies nr[i]
                    != nr[j] by {
                    if i == m.registry.len() {
                        assert(m.registry.contains(nr[j]));
                    } else if j == m.registry.len() {
                        assert(m.registry.contains(nr[i]));
                    }
                }
                assert forall|x: MetaView| nq.contains(x) <==> nr.contains(x) by {
                    assert(m.queue.contains(x) <==> m.registry.contains(x));
                }
                assert(m.statuses.push(DownloadStatus::Queued).len() == nr.len());
            }
        },
        DownloadManagerSignal::Completed(k) => {
            if m.queue.len() > 0 && m.queue[0] == k@ {
                lemma_pop_keeps_wf(m);
            }
        },
        DownloadManagerSignal::Error(e) => {
            if m.queue.len() > 0 {
                lemma_pop_keeps_wf(m);
            }
        },
        DownloadManagerSignal::Cancel(k) => {
            if m.queue.len() > 0 && m.queue[0] == k@ {
                lemma_pop_keeps_wf(m);
            } else if m.queue.contains(k@) {
                lemma_remove_key(m.queue, k@);
                lemma_remove_key(m.registry, k@);
                let nq = remove_key(m.queue, k@);
                let nr = remove_key(m.registry, k@);
                assert forall|x: MetaView| nq.contains(x) <==> nr.contains(x) by {
                    assert(nq.contains(x) <==> (m.queue.contains(x) && x != k@));
                    assert(nr.contains(x) <==> (m.registry.contains(x) && x != k@));
                }
            }
            assert(manager_wf(cancel_next(m, k@).0));
        },
        _ => {},
    }
    match s {
        DownloadManagerSignal::Go => assert(manager_wf(go_next(m).0)),
        DownloadManagerSignal::Stop => {
            if head_running(m) {
                assert(m.queue.contains(m.queue[0]));
                lemma_key_index(m.registry, m.queue[0]);
                assert(m.statuses.update(key_index(m.registry, m.queue[0]), DownloadStatus::Queued).len()
                    == m.statuses.len());
            }
            assert(manager_wf(stop_next(m).0));
        },
        DownloadManagerSignal::Completed(k) => assert(manager_wf(completed_next(m, k@).0)),
        DownloadManagerSignal::Queue(k) => assert(manager_wf(queue_next(m, k@).0)),
        DownloadManagerSignal::Error(e) => assert(manager_wf(error_next(m, e).0)),
        DownloadManagerSignal::Finish => assert(manager_wf(finish_next(m).0)),
        _ => {},
    }
}

proof fn lemma_remove_pushed(s: Seq<MetaView>, k: MetaView)
    requires
        !s.contains(k),
    ensures
        remove_key(s.push(k), k) == s,
{
    let t = s.push(k);
    lemma_key_index(t, k);
    assert(t[s.len() as int] == k);
    let i = key_index(t, k);
    if i < s.len() {
        assert(s[i] == k);
    }
    assert(t.remove(s.len() as int) =~= s);
}

/// At every signal boundary the set of keys in the registry is the set of
/// keys in the queue.
pub proof fn lemma_registry_matches_queue(m: ManagerView, s: DownloadManagerSignal)
    requires
        manager_wf(m),
    ensures
        manager_wf(signal_next(m, s).0),
        signal_next(m, s).0.queue.to_set() == signal_next(m, s).0.registry.to_set(),
{
    lemma_signal_keeps_wf(m, s);
    let n = signal_next(m, s).0;
    assert(n.queue.to_set() =~= n.registry.to_set());
}

/// Enqueueing a download, cancelling it and enqueueing it again leaves the
/// queue and the registry as the first enqueue left them.
pub proof fn lemma_enqueue_cancel_enqueue(m: ManagerView, a: DownloadableMetadata)
    requires
        manager_wf(m),
        !m.registry.contains(a@),
    ensures
        ({
            let first = queue_next(m, a@).0;
            let again = signal_next(
                signal_next(first, DownloadManagerSignal::Cancel(a)).0,
                DownloadManagerSignal::Queue(a),
            ).0;
            again.queue == first.queue && again.registry == first.registry
        }),
{
    let first = queue_next(m, a@).0;
    assert(!m.queue.contains(a@));
    lemma_remove_pushed(m.queue, a@);
    lemma_remove_pushed(m.registry, a@);
    let c = cancel_next(first, a@).0;
    assert(first.queue.contains(a@)) by {
        assert(first.queue[m.queue.len() as int] == a@);
    }
    if first.queue[0] == a@ {
        if m.queue.len() > 0 {
            assert(m.queue[0] == a@);
            assert(m.queue.contains(a@));
        }
        assert(c.queue =~= m.queue);
    }
    assert(c.queue == m.queue);
    assert(c.registry == m.registry);
}

} // verus!
