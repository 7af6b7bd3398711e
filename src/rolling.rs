//! Fixed-capacity ring of recent throughput samples.

use vstd::prelude::*;

verus! {

/// Sum of a sequence of samples.
pub open spec fn seq_sum(s: Seq<usize>) -> int
    decreases s.len(),
{
    if s.len() == 0 {
        0
    } else {
        seq_sum(s.drop_last()) + s.last() as int
    }
}

/// Mean of the most recent `min(history.len(), cap)` samples, zero when there are none.
pub open spec fn recent_mean(history: Seq<usize>, cap: nat) -> int {
    let k = if history.len() < cap {
        history.len()
    } else {
        cap
    };
    if k == 0 {
        0
    } else {
        seq_sum(history.subrange(history.len() - k, history.len() as int)) / (k as int)
    }
}

pub proof fn lemma_sum_push(s: Seq<usize>, v: usize)
    ensures
        seq_sum(s.push(v)) == seq_sum(s) + v,
{
    assert(s.push(v).drop_last() =~= s);
}

pub proof fn lemma_sum_first(s: Seq<usize>)
    requires
        s.len() > 0,
    ensures
        seq_sum(s) == s[0] + seq_sum(s.drop_first()),
    decreases s.len(),
{
    if s.len() == 1 {
        assert(s.drop_first() =~= Seq::<usize>::empty());
        assert(s.drop_last() =~= Seq::<usize>::empty());
    } else {
        lemma_sum_first(s.drop_last());
        assert(s.drop_last().drop_first() =~= s.drop_first().drop_last());
        assert(s.drop_first().last() == s.last());
    }
}

pub proof fn lemma_sum_update(s: Seq<usize>, j: int, v: usize)
    requires
        0 <= j < s.len(),
    ensures
        seq_sum(s.update(j, v)) == seq_sum(s) - s[j] + v,
    decreases s.len(),
{
    if j == s.len() - 1 {
        assert(s.update(j, v).drop_last() =~= s.drop_last());
    } else {
        lemma_sum_update(s.drop_last(), j, v);
        assert(s.update(j, v).drop_last() =~= s.drop_last().update(j, v));
    }
}

pub proof fn lemma_sum_prefix_step(s: Seq<usize>, i: int)
    requires
        0 <= i < s.len(),
    ensures
        seq_sum(s.subrange(0, i + 1)) == seq_sum(s.subrange(0, i)) + s[i],
{
    assert(s.subrange(0, i + 1).drop_last() =~= s.subrange(0, i));
}

/// A ring of the last `S` samples. Slot `j` holds the sample written at the
/// last position congruent to `j` modulo `S`; `filled` is `min(count, S)` and
/// `next` is `count % S`, where `count` is the number of updates since reset.
pub struct RollingProgressWindow<const S: usize> {
    window: Vec<usize>,
    next: usize,
    filled: usize,
    history: Ghost<Seq<usize>>,
}

impl<const S: usize> RollingProgressWindow<S> {
    /// Every sample recorded since construction or the last reset, oldest first.
    pub closed spec fn samples(&self) -> Seq<usize> {
        self.history@
    }

    pub closed spec fn wf(&self) -> bool {
        let h = self.history@;
        let len = h.len() as int;
        let next = self.next as int;
        &&& S > 0
        &&& self.window@.len() == S
        &&& self.next < S
        &&& self.filled <= S
        &&& (self.filled < S ==> self.next == self.filled && len == self.filled)
        &&& (self.filled == S ==> len >= S)
        &&& forall|j: int| 0 <= j < next ==> #[trigger] self.window@[j] == h[len - next + j]
        &&& forall|j: int|
            next <= j < S ==> (if self.filled == S {
                #[trigger] self.window@[j] == h[len - next - S + j]
            } else {
                self.window@[j] == 0
            })
        &&& seq_sum(self.window@) == seq_sum(h.subrange(len - self.filled, len))
    }

    /// An empty window.
    pub fn new() -> (r: Self)
        requires
            S > 0,
        ensures
            r.wf(),
            r.samples() == Seq::<usize>::empty(),
    {
        let mut window: Vec<usize> = Vec::new();
        let mut i: usize = 0;
        while i < S
            invariant
                i <= S,
                window@.len() == i,
                forall|j: int| 0 <= j < i ==> window@[j] == 0,
                seq_sum(window@) == 0,
            decreases S - i,
        {
            proof {
                lemma_sum_push(window@, 0);
            }
            window.push(0);
            i = i + 1;
        }
        let r = RollingProgressWindow { window, next: 0, filled: 0, history: Ghost(Seq::empty()) };
        assert(r.history@.subrange(0, 0) =~= Seq::<usize>::empty());
        r
    }

    /// Records one sample, overwriting the oldest once the ring is full.
    pub fn update(&mut self, kilobytes_per_second: usize)
        requires
            old(self).wf(),
        ensures
            final(self).wf(),
            final(self).samples() == old(self).samples().push(kilobytes_per_second),
    {
        let ghost h = self.history@;
        let ghost len = h.len() as int;
        let ghost old_window = self.window@;
        let ghost old_filled = self.filled as int;
        let slot = self.next;
        proof {
            lemma_sum_update(old_window, slot as int, kilobytes_per_second);
            lemma_sum_push(h, kilobytes_per_second);
        }
        self.window.set(slot, kilobytes_per_second);
        self.history = Ghost(h.push(kilobytes_per_second));
        if self.next + 1 < S {
            self.next = self.next + 1;
        } else {
            self.next = 0;
        }
        if self.filled < S {
            self.filled = self.filled + 1;
        }
        let ghost h2 = self.history@;
        proof {
            if old_filled < S {
                assert(old_window[slot as int] == 0);
                assert(h2.subrange(0, len + 1) =~= h.push(kilobytes_per_second));
                assert(h.subrange(0, len) =~= h);
            } else {
                assert(old_window[slot as int] == h[len - S]);
                let a = h.subrange(len - S, len);
                let b = h2.subrange(len + 1 - S, len + 1);
                lemma_sum_first(a);
                assert(b =~= a.drop_first().push(kilobytes_per_second));
                lemma_sum_push(a.drop_first(), kilobytes_per_second);
            }
        }
    }

    /// Mean of the samples that the ring holds: the most recent
    /// `min(count, S)` of them, or zero when there are none.
    pub fn get_average(&self) -> (r: usize)
        requires
            self.wf(),
        ensures
            r as int == recent_mean(self.samples(), S as nat),
    {
        let mut total: u128 = 0;
        let mut i: usize = 0;
        while i < S
            invariant
                self.wf(),
                i <= S,
                total as int == seq_sum(self.window@.subrange(0, i as int)),
                total <= (i as u128) * (usize::MAX as u128),
            decreases S - i,
        {
            proof {
                lemma_sum_prefix_step(self.window@, i as int);
            }
            let x = self.window[i];
            assert(total + x <= (i as u128 + 1) * (usize::MAX as u128) && (i as u128 + 1)
                * (usize::MAX as u128) <= u128::MAX) by (nonlinear_arith)
                requires
                    total <= (i as u128) * (usize::MAX as u128),
                    x <= usize::MAX,
                    i < S,
                    S <= usize::MAX,
            ;
            total = total + x as u128;
            i = i + 1;
        }
        assert(self.window@.subrange(0, S as int) =~= self.window@);
        if self.filled == 0 {
            return 0;
        }
        let mean = total / (self.filled as u128);
        proof {
            let len = self.history@.len() as int;
            let h = self.history@;
            assert(seq_sum(h.subrange(len - self.filled, len)) <= (self.filled as int) * (usize::MAX as int)) by {
                assert(total <= (S as u128) * (usize::MAX as u128));
                lemma_sum_bound(h.subrange(len - self.filled, len));
            }
            assert(mean <= usize::MAX) by (nonlinear_arith)
                requires
                    mean == total / (self.filled as u128),
                    total <= (self.filled as u128) * (usize::MAX as u128),
                    self.filled > 0,
            ;
        }
        mean as usize
    }

    /// Forgets every sample.
    pub fn reset(&mut self)
        requires
            old(self).wf(),
        ensures
            final(self).wf(),
            final(self).samples() == Seq::<usize>::empty(),
    {
        let mut i: usize = 0;
        while i < S
            invariant
                S > 0,
                i <= S,
                self.window@.len() == S,
                forall|j: int| 0 <= j < i ==> self.window@[j] == 0,
                seq_sum(self.window@.subrange(0, i as int)) == 0,
            decreases S - i,
        {
            let ghost before = self.window@;
            self.window.set(i, 0);
            proof {
                lemma_sum_prefix_step(self.window@, i as int);
                assert(self.window@.subrange(0, i as int) =~= before.subrange(0, i as int));
            }
            i = i + 1;
        }
        assert(self.window@.subrange(0, S as int) =~= self.window@);
        self.next = 0;
        self.filled = 0;
        self.history = Ghost(Seq::empty());
        assert(self.history@.subrange(0, 0) =~= Seq::<usize>::empty());
    }
}

pub proof fn lemma_sum_bound(s: Seq<usize>)
    ensures
        seq_sum(s) <= s.len() * (usize::MAX as int),
        seq_sum(s) >= 0,
    decreases s.len(),
{
    if s.len() > 0 {
        lemma_sum_bound(s.drop_last());
        assert((s.len() - 1) * (usize::MAX as int) + usize::MAX == s.len() * (usize::MAX as int))
            by (nonlinear_arith);
    }
}

} // verus!
