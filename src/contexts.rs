//! Per-chunk completion records keyed by content hash, and the per-download
//! record persisted beside a game's files.

use vstd::prelude::*;
use vstd::string::StringExecFns;

verus! {

/// Whether the chunk with hash `h` is recorded as complete; absent means not.
pub open spec fn is_done(m: Map<Seq<char>, bool>, h: Seq<char>) -> bool {
    m.contains_key(h) && m[h]
}

/// The map that a list of `(hash, complete)` pairs describes; a later pair
/// for the same hash wins.
pub open spec fn pairs_map(s: Seq<(String, bool)>) -> Map<Seq<char>, bool>
    decreases s.len(),
{
    if s.len() == 0 {
        Map::empty()
    } else {
        pairs_map(s.drop_last()).insert(s.last().0@, s.last().1)
    }
}

/// Completion bitmap: one entry per known chunk hash.
pub struct CompletionMap {
    entries: Vec<(String, bool)>,
    model: Ghost<Map<Seq<char>, bool>>,
}

impl View for CompletionMap {
    type V = Map<Seq<char>, bool>;

    closed spec fn view(&self) -> Map<Seq<char>, bool> {
        self.model@
    }
}

impl CompletionMap {
    pub closed spec fn wf(&self) -> bool {
        let e = self.entries@;
        &&& forall|i: int, j: int|
            0 <= i < e.len() && 0 <= j < e.len() && i != j ==> #[trigger] e[i].0@ != #[trigger] e[j].0@
        &&& forall|i: int|
            0 <= i < e.len() ==> self.model@.contains_key(#[trigger] e[i].0@) && self.model@[e[i].0@]
                == e[i].1
        &&& forall|k: Seq<char>|
            #[trigger] self.model@.contains_key(k) ==> exists|i: int| 0 <= i < e.len() && e[i].0@ == k
    }

    /// No hash known.
    pub fn new() -> (r: Self)
        ensures
            r.wf(),
            r@ == Map::<Seq<char>, bool>::empty(),
    {
        CompletionMap { entries: Vec::new(), model: Ghost(Map::empty()) }
    }

    /// Number of known hashes.
    pub fn len(&self) -> (r: usize)
        requires
            self.wf(),
        ensures
            r == self@.dom().len(),
    {
        proof {
            self.lemma_dom();
        }
        self.entries.len()
    }

    proof fn lemma_dom(&self)
        requires
            self.wf(),
        ensures
            self@.dom().finite(),
            self@.dom().len() == self.entries@.len(),
        decreases self.entries@.len(),
    {
        let e = self.entries@;
        let keys = e.map_values(|p: (String, bool)| p.0@);
        assert(keys.no_duplicates()) by {
            assert forall|i: int, j: int| 0 <= i < keys.len() && 0 <= j < keys.len() && i != j implies keys[i]
                != keys[j] by {
                assert(e[i].0@ != e[j].0@);
            }
        }
        assert(self@.dom() =~= keys.to_set()) by {
            assert forall|k: Seq<char>| self@.dom().contains(k) <==> keys.to_set().contains(k) by {
                if self@.contains_key(k) {
                    let i = choose|i: int| 0 <= i < e.len() && e[i].0@ == k;
                    assert(keys[i] == k);
                }
                if keys.to_set().contains(k) {
                    let i = choose|i: int| 0 <= i < keys.len() && keys[i] == k;
                    assert(self@.contains_key(e[i].0@));
                }
            }
        }
        keys.unique_seq_to_set();
    }

    fn find(&self, h: &String) -> (r: usize)
        requires
            self.wf(),
        ensures
            r <= self.entries@.len(),
            r < self.entries@.len() ==> self.entries@[r as int].0@ == h@,
            r == self.entries@.len() ==> !self@.contains_key(h@),
    {
        let mut i: usize = 0;
        while i < self.entries.len()
            invariant
                self.wf(),
                i <= self.entries@.len(),
                forall|t: int| 0 <= t < i ==> self.entries@[t].0@ != h@,
            decreases self.entries@.len() - i,
        {
            if self.entries[i].0 == *h {
                return i;
            }
            i = i + 1;
        }
        i
    }

    /// Whether the chunk is recorded as complete.
    pub fn get(&self, h: &String) -> (r: bool)
        requires
            self.wf(),
        ensures
            r == is_done(self@, h@),
    {
        let i = self.find(h);
        if i < self.entries.len() {
            self.entries[i].1
        } else {
            false
        }
    }

    /// Records the completion of one chunk.
    pub fn set(&mut self, h: String, done: bool)
        requires
            old(self).wf(),
        ensures
            final(self).wf(),
            final(self)@ == old(self)@.insert(h@, done),
    {
        let i = self.find(&h);
        let ghost hv = h@;
        let ghost m = self.model@.insert(hv, done);
        if i < self.entries.len() {
            let ghost before = self.entries@;
            self.entries.set(i, (h, done));
            self.model = Ghost(m);
            assert forall|k: Seq<char>| #[trigger] self.model@.contains_key(k) implies exists|t: int|
                0 <= t < self.entries@.len() && self.entries@[t].0@ == k by {
                if k != hv {
                    let t = choose|t: int| 0 <= t < before.len() && before[t].0@ == k;
                    assert(self.entries@[t].0@ == k);
                } else {
                    assert(self.entries@[i as int].0@ == k);
                }
            }
        } else {
            let ghost before = self.entries@;
            self.entries.push((h, done));
            self.model = Ghost(m);
            assert forall|k: Seq<char>| #[trigger] self.model@.contains_key(k) implies exists|t: int|
                0 <= t < self.entries@.len() && self.entries@[t].0@ == k by {
                if k != hv {
                    let t = choose|t: int| 0 <= t < before.len() && before[t].0@ == k;
                    assert(self.entries@[t].0@ == k);
                } else {
                    assert(self.entries@[before.len() as int].0@ == k);
                }
            }
            assert forall|a: int, b: int|
                0 <= a < self.entries@.len() && 0 <= b < self.entries@.len() && a != b implies #[trigger] self.entries@[a].0@
                != #[trigger] self.entries@[b].0@ by {
                if a == before.len() {
                    assert(self.model@.contains_key(before[b].0@));
                } else if b == before.len() {
                    assert(self.model@.contains_key(before[a].0@));
                }
            }
        }
    }

    /// The map that a list of pairs describes.
    pub fn from_pairs(pairs: &Vec<(String, bool)>) -> (r: Self)
        ensures
            r.wf(),
            r@ == pairs_map(pairs@),
    {
        let mut r = CompletionMap::new();
        let mut i: usize = 0;
        while i < pairs.len()
            invariant
                i <= pairs@.len(),
                r.wf(),
                r@ == pairs_map(pairs@.subrange(0, i as int)),
            decreases pairs@.len() - i,
        {
            let (h, done) = (pairs[i].0.clone(), pairs[i].1);
            r.set(h, done);
            assert(pairs@.subrange(0, i as int + 1).drop_last() =~= pairs@.subrange(0, i as int));
            i = i + 1;
        }
        assert(pairs@.subrange(0, i as int) =~= pairs@);
        r
    }

    /// A copy with the same contents.
    pub fn snapshot(&self) -> (r: Self)
        requires
            self.wf(),
        ensures
            r.wf(),
            r@ == self@,
    {
        let mut entries: Vec<(String, bool)> = Vec::new();
        let mut i: usize = 0;
        while i < self.entries.len()
            invariant
                self.wf(),
                i <= self.entries@.len(),
                entries@.len() == i,
                forall|t: int| 0 <= t < i ==> #[trigger] entries@[t].0@ == self.entries@[t].0@
                    && entries@[t].1 == self.entries@[t].1,
            decreases self.entries@.len() - i,
        {
            entries.push((self.entries[i].0.clone(), self.entries[i].1));
            i = i + 1;
        }
        let r = CompletionMap { entries, model: Ghost(self.model@) };
        assert forall|k: Seq<char>| #[trigger] r.model@.contains_key(k) implies exists|t: int|
            0 <= t < r.entries@.len() && r.entries@[t].0@ == k by {
            let t = choose|t: int| 0 <= t < self.entries@.len() && self.entries@[t].0@ == k;
            assert(r.entries@[t].0@ == k);
        }
        assert forall|a: int, b: int|
            0 <= a < r.entries@.len() && 0 <= b < r.entries@.len() && a != b implies #[trigger] r.entries@[a].0@
            != #[trigger] r.entries@[b].0@ by {
            assert(self.entries@[a].0@ != self.entries@[b].0@);
        }
        r
    }

    /// Every entry as a `(hash, complete)` pair, each hash once.
    pub fn to_pairs(&self) -> (r: Vec<(String, bool)>)
        requires
            self.wf(),
        ensures
            forall|i: int| 0 <= i < r@.len() ==> is_done(self@, #[trigger] r@[i].0@) == r@[i].1
                && self@.contains_key(r@[i].0@),
            forall|k: Seq<char>| self@.contains_key(k) ==> exists|i: int| 0 <= i < r@.len() && #[trigger] r@[i].0@ == k,
            forall|i: int, j: int|
                0 <= i < r@.len() && 0 <= j < r@.len() && i != j ==> r@[i].0@ != r@[j].0@,
    {
        let s = self.snapshot();
        let r = s.entries;
        assert forall|k: Seq<char>| self@.contains_key(k) implies exists|i: int| 0 <= i < r@.len() && #[trigger] r@[i].0@ == k by {
            assert(s.model@.contains_key(k));
        }
        assert forall|i: int, j: int|
            0 <= i < r@.len() && 0 <= j < r@.len() && i != j implies r@[i].0@ != r@[j].0@ by {
            assert(r@[i].0@ != r@[j].0@);
        }
        r
    }
}

/// The per-download record: where the game lives, which version, and which
/// chunks are complete.
pub struct DropData {
    pub base_path: String,
    pub id: String,
    pub version: String,
    pub contexts: CompletionMap,
}

impl DropData {
    pub open spec fn wf(&self) -> bool {
        self.contexts.wf()
    }

    pub open spec fn contexts(&self) -> Map<Seq<char>, bool> {
        self.contexts@
    }

    /// A record with the given completion pairs (empty for a fresh download
    /// or one whose stored record could not be read).
    pub fn generate(id: String, version: String, base_path: String, stored: &Vec<(String, bool)>) -> (r: Self)
        ensures
            r.wf(),
            r.id@ == id@,
            r.version@ == version@,
            r.base_path@ == base_path@,
            r.contexts() == pairs_map(stored@),
    {
        DropData { base_path, id, version, contexts: CompletionMap::from_pairs(stored) }
    }

    /// A snapshot of the completion map.
    pub fn get_contexts(&self) -> (r: CompletionMap)
        requires
            self.wf(),
        ensures
            r.wf(),
            r@ == self.contexts(),
    {
        self.contexts.snapshot()
    }

    /// Replaces the completion map by the one the pairs describe.
    pub fn set_contexts(&mut self, pairs: &Vec<(String, bool)>)
        ensures
            final(self).wf(),
            final(self).contexts() == pairs_map(pairs@),
            final(self).id == old(self).id,
            final(self).version == old(self).version,
            final(self).base_path == old(self).base_path,
    {
        self.contexts = CompletionMap::from_pairs(pairs);
    }

    /// Records the completion of one chunk.
    pub fn set_context(&mut self, h: String, done: bool)
        requires
            old(self).wf(),
        ensures
            final(self).wf(),
            final(self).contexts() == old(self).contexts().insert(h@, done),
            final(self).id == old(self).id,
            final(self).version == old(self).version,
            final(self).base_path == old(self).base_path,
    {
        self.contexts.set(h, done);
    }

    /// The pairs to persist.
    pub fn to_pairs(&self) -> (r: Vec<(String, bool)>)
        requires
            self.wf(),
        ensures
            forall|i: int| 0 <= i < r@.len() ==> is_done(self.contexts(), #[trigger] r@[i].0@) == r@[i].1
                && self.contexts().contains_key(r@[i].0@),
            forall|k: Seq<char>| self.contexts().contains_key(k) ==> exists|i: int| 0 <= i < r@.len() && #[trigger] r@[i].0@ == k,
    {
        self.contexts.to_pairs()
    }
}

/// Relies on String::push: appends one character.
#[verifier::external_body]
pub(crate) fn push_char(s: &mut String, c: char)
    ensures
        final(s)@ == old(s)@.push(c),
{
    s.push(c)
}

/// Text of a completion record: one line per pair, the flag (`1` complete,
/// `0` not) followed by the hash and a newline.
pub open spec fn encode_record_spec(pairs: Seq<(Seq<char>, bool)>) -> Seq<char>
    decreases pairs.len(),
{
    if pairs.len() == 0 {
        Seq::empty()
    } else {
        encode_record_spec(pairs.drop_last()) + seq![if pairs.last().1 { '1' } else { '0' }] + pairs.last().0
            + seq!['\n']
    }
}

/// Pairs read so far, and the line being read: its flag and hash so far.
pub type ParseState = (Seq<(Seq<char>, bool)>, Option<(bool, Seq<char>)>);

/// State after reading the first `n` characters, or none once the text is malformed.
pub open spec fn parse_prefix(cs: Seq<char>, n: int) -> Option<ParseState>
    decreases n,
{
    if n <= 0 {
        Some((Seq::empty(), None))
    } else {
        match parse_prefix(cs, n - 1) {
            None => None,
            Some((pairs, line)) => {
                let c = cs[n - 1];
                match line {
                    None => if c == '1' {
                        Some((pairs, Some((true, Seq::empty()))))
                    } else if c == '0' {
                        Some((pairs, Some((false, Seq::empty()))))
                    } else {
                        None
                    },
                    Some((flag, hash)) => if c == '\n' {
                        Some((pairs.push((hash, flag)), None))
                    } else {
                        Some((pairs, Some((flag, hash.push(c)))))
                    },
                }
            },
        }
    }
}

/// The pairs of a well-formed record; none when the text is malformed.
pub open spec fn parse_record_spec(cs: Seq<char>) -> Option<Seq<(Seq<char>, bool)>> {
    match parse_prefix(cs, cs.len() as int) {
        Some((pairs, None)) => Some(pairs),
        _ => None,
    }
}

pub open spec fn pairs_view(v: Seq<(String, bool)>) -> Seq<(Seq<char>, bool)> {
    v.map_values(|p: (String, bool)| (p.0@, p.1))
}

proof fn lemma_parse_stays_malformed(cs: Seq<char>, n: int, m: int)
    requires
        0 <= n <= m,
        parse_prefix(cs, n) is None,
    ensures
        parse_prefix(cs, m) is None,
    decreases m - n,
{
    if n < m {
        lemma_parse_stays_malformed(cs, n + 1, m);
    }
}

/// Writes pairs as a completion record.
pub fn encode_record(pairs: &Vec<(String, bool)>) -> (r: String)
    ensures
        r@ == encode_record_spec(pairs_view(pairs@)),
{
    let mut out = String::new();
    let mut i: usize = 0;
    while i < pairs.len()
        invariant
            i <= pairs@.len(),
            out@ == encode_record_spec(pairs_view(pairs@).subrange(0, i as int)),
        decreases pairs@.len() - i,
    {
        let ghost before = out@;
        push_char(&mut out, if pairs[i].1 { '1' } else { '0' });
        out.append(pairs[i].0.as_str());
        push_char(&mut out, '\n');
        assert(pairs_view(pairs@).subrange(0, i as int + 1).drop_last() =~= pairs_view(pairs@).subrange(0, i as int));
        assert(out@ =~= before + seq![if pairs[i as int].1 { '1' } else { '0' }] + pairs[i as int].0@ + seq!['\n']);
        i = i + 1;
    }
    assert(pairs_view(pairs@).subrange(0, i as int) =~= pairs_view(pairs@));
    out
}

/// Reads a completion record; none when it is malformed.
pub fn decode_record(cs: &Vec<char>) -> (r: Option<Vec<(String, bool)>>)
    ensures
        match r {
            Some(v) => parse_record_spec(cs@) == Some(pairs_view(v@)),
            None => parse_record_spec(cs@) is None,
        },
{
    let mut pairs: Vec<(String, bool)> = Vec::new();
    let mut in_line = false;
    let mut flag = false;
    let mut hash = String::new();
    let mut i: usize = 0;
    while i < cs.len()
        invariant
            i <= cs@.len(),
            parse_prefix(cs@, i as int) == Some((pairs_view(pairs@), if in_line {
                Some((flag, hash@))
            } else {
                None::<(bool, Seq<char>)>
            })),
        decreases cs@.len() - i,
    {
        let c = cs[i];
        if !in_line {
            if c == '1' {
                flag = true;
            } else if c == '0' {
                flag = false;
            } else {
                proof {
                    lemma_parse_stays_malformed(cs@, i as int + 1, cs@.len() as int);
                }
                return None;
            }
            in_line = true;
            hash = String::new();
        } else if c == '\n' {
            let ghost before = pairs@;
            let ghost h = hash@;
            pairs.push((hash, flag));
            hash = String::new();
            assert(pairs_view(pairs@) =~= pairs_view(before).push((h, flag)));
            in_line = false;
        } else {
            push_char(&mut hash, c);
        }
        i = i + 1;
    }
    if in_line {
        return None;
    }
    Some(pairs)
}

proof fn lemma_parse_prefix_ext(a: Seq<char>, b: Seq<char>, n: int)
    requires
        0 <= n <= a.len(),
        n <= b.len(),
        forall|i: int| 0 <= i < n ==> a[i] == b[i],
    ensures
        parse_prefix(a, n) == parse_prefix(b, n),
    decreases n,
{
    if n > 0 {
        lemma_parse_prefix_ext(a, b, n - 1);
    }
}

proof fn lemma_parse_hash(
    cs: Seq<char>,
    base: int,
    ps: Seq<(Seq<char>, bool)>,
    flag: bool,
    hash: Seq<char>,
    k: int,
)
    requires
        0 <= base,
        0 <= k <= hash.len(),
        base + hash.len() <= cs.len(),
        forall|i: int| 0 <= i < hash.len() ==> cs[base + i] == hash[i] && hash[i] != '\n',
        parse_prefix(cs, base) == Some((ps, Some((flag, Seq::<char>::empty())))),
    ensures
        parse_prefix(cs, base + k) == Some((ps, Some((flag, hash.subrange(0, k))))),
    decreases k,
{
    if k == 0 {
        assert(hash.subrange(0, 0) =~= Seq::<char>::empty());
    } else {
        lemma_parse_hash(cs, base, ps, flag, hash, k - 1);
        assert(hash.subrange(0, k) =~= hash.subrange(0, k - 1).push(hash[k - 1]));
    }
}

proof fn lemma_parse_line(t: Seq<char>, ps: Seq<(Seq<char>, bool)>, flag: bool, hash: Seq<char>)
    requires
        parse_prefix(t, t.len() as int) == Some((ps, None::<(bool, Seq<char>)>)),
        forall|i: int| 0 <= i < hash.len() ==> hash[i] != '\n',
    ensures
        ({
            let cs = t + seq![if flag { '1' } else { '0' }] + hash + seq!['\n'];
            parse_prefix(cs, cs.len() as int) == Some((ps.push((hash, flag)), None::<(bool, Seq<char>)>))
        }),
{
    let fc = if flag { '1' } else { '0' };
    let cs = t + seq![fc] + hash + seq!['\n'];
    let base = t.len() as int + 1;
    lemma_parse_prefix_ext(t, cs, t.len() as int);
    assert(cs[t.len() as int] == fc);
    assert(parse_prefix(cs, base) == Some((ps, Some((flag, Seq::<char>::empty())))));
    assert forall|i: int| 0 <= i < hash.len() implies cs[base + i] == hash[i] && hash[i] != '\n' by {
        assert(cs[base + i] == hash[i]);
    }
    lemma_parse_hash(cs, base, ps, flag, hash, hash.len() as int);
    assert(hash.subrange(0, hash.len() as int) =~= hash);
    assert(cs[base + hash.len()] == '\n');
    assert(cs.len() == base + hash.len() + 1);
}

/// Reading back a written record gives the pairs that were written, as long
/// as no hash holds a newline.
pub proof fn lemma_record_round_trip(pairs: Seq<(Seq<char>, bool)>)
    requires
        forall|p: int, i: int| 0 <= p < pairs.len() && 0 <= i < pairs[p].0.len() ==> #[trigger] pairs[p].0[i] != '\n',
    ensures
        parse_record_spec(encode_record_spec(pairs)) == Some(pairs),
    decreases pairs.len(),
{
    if pairs.len() == 0 {
        assert(parse_prefix(encode_record_spec(pairs), 0) == Some((Seq::<(Seq<char>, bool)>::empty(), None::<(bool, Seq<char>)>)));
        assert(pairs =~= Seq::<(Seq<char>, bool)>::empty());
    } else {
        let init = pairs.drop_last();
        assert forall|p: int, i: int| 0 <= p < init.len() && 0 <= i < init[p].0.len() implies #[trigger] init[p].0[i] != '\n' by {
            assert(init[p] == pairs[p]);
        }
        lemma_record_round_trip(init);
        let last = pairs.last();
        assert forall|i: int| 0 <= i < last.0.len() implies last.0[i] != '\n' by {
            assert(pairs[pairs.len() - 1].0[i] != '\n');
        }
        lemma_parse_line(encode_record_spec(init), init, last.1, last.0);
        assert(init.push((last.0, last.1)) =~= pairs);
    }
}

/// Text of a whole per-download record: the id, the version and the base
/// path on a line each, then the completion pairs.
pub open spec fn encode_drop_data_spec(id: Seq<char>, version: Seq<char>, base_path: Seq<char>, pairs: Seq<(Seq<char>, bool)>) -> Seq<char> {
    id + seq!['\n'] + version + seq!['\n'] + base_path + seq!['\n'] + encode_record_spec(pairs)
}

/// Position of the first newline at or after `from`, or the length.
pub open spec fn first_newline(cs: Seq<char>, from: int) -> int
    decreases cs.len() - from,
{
    if from >= cs.len() {
        cs.len() as int
    } else if cs[from] == '\n' {
        from
    } else {
        first_newline(cs, from + 1)
    }
}

/// The id, version, base path and pairs of a well-formed record; none when
/// a header line is missing or the pairs are malformed.
pub open spec fn parse_drop_data_spec(cs: Seq<char>) -> Option<(Seq<char>, Seq<char>, Seq<char>, Seq<(Seq<char>, bool)>)> {
    let a = first_newline(cs, 0);
    let b = first_newline(cs, a + 1);
    let c = first_newline(cs, b + 1);
    if a >= cs.len() || b >= cs.len() || c >= cs.len() {
        None
    } else {
        match parse_record_spec(cs.subrange(c + 1, cs.len() as int)) {
            Some(p) => Some((cs.subrange(0, a), cs.subrange(a + 1, b), cs.subrange(b + 1, c), p)),
            None => None,
        }
    }
}

proof fn lemma_first_newline_bound(cs: Seq<char>, from: int)
    requires
        0 <= from,
    ensures
        from <= first_newline(cs, from) || from > cs.len(),
        first_newline(cs, from) <= cs.len() || from > cs.len(),
        first_newline(cs, from) < cs.len() ==> cs[first_newline(cs, from)] == '\n',
    decreases cs.len() - from,
{
    if from < cs.len() && cs[from] != '\n' {
        lemma_first_newline_bound(cs, from + 1);
    }
}

proof fn lemma_first_newline_at(cs: Seq<char>, from: int, to: int)
    requires
        0 <= from <= to < cs.len(),
        cs[to] == '\n',
        forall|i: int| from <= i < to ==> cs[i] != '\n',
    ensures
        first_newline(cs, from) == to,
    decreases to - from,
{
    if from < to {
        lemma_first_newline_at(cs, from + 1, to);
    }
}

fn find_newline(cs: &Vec<char>, from: usize) -> (r: usize)
    requires
        from <= cs@.len(),
    ensures
        r as int == first_newline(cs@, from as int),
{
    let mut i = from;
    while i < cs.len()
        invariant
            from <= i <= cs@.len(),
            first_newline(cs@, from as int) == first_newline(cs@, i as int),
        decreases cs@.len() - i,
    {
        if cs[i] == '\n' {
            return i;
        }
        i = i + 1;
    }
    i
}

fn collect_chars(cs: &Vec<char>, from: usize, to: usize) -> (r: String)
    requires
        from <= to <= cs@.len(),
    ensures
        r@ == cs@.subrange(from as int, to as int),
{
    let mut out = String::new();
    let mut i = from;
    while i < to
        invariant
            from <= i <= to,
            to <= cs@.len(),
            out@ == cs@.subrange(from as int, i as int),
        decreases to - i,
    {
        push_char(&mut out, cs[i]);
        assert(cs@.subrange(from as int, i as int + 1) =~= cs@.subrange(from as int, i as int).push(cs@[i as int]));
        i = i + 1;
    }
    out
}

fn copy_tail(cs: &Vec<char>, from: usize) -> (r: Vec<char>)
    requires
        from <= cs@.len(),
    ensures
        r@ == cs@.subrange(from as int, cs@.len() as int),
{
    let mut out: Vec<char> = Vec::new();
    let mut i = from;
    while i < cs.len()
        invariant
            from <= i <= cs@.len(),
            out@ == cs@.subrange(from as int, i as int),
        decreases cs@.len() - i,
    {
        out.push(cs[i]);
        assert(cs@.subrange(from as int, i as int + 1) =~= cs@.subrange(from as int, i as int).push(cs@[i as int]));
        i = i + 1;
    }
    out
}

impl DropData {
    /// The record to write to disk.
    pub fn encode(&self) -> (r: String)
        requires
            self.wf(),
        ensures
            exists|p: Seq<(String, bool)>| r@ == encode_drop_data_spec(self.id@, self.version@, self.base_path@, pairs_view(p))
                && (forall|i: int| 0 <= i < p.len() ==> is_done(self.contexts(), #[trigger] p[i].0@) == p[i].1 && self.contexts().contains_key(p[i].0@))
                && (forall|k: Seq<char>| self.contexts().contains_key(k) ==> exists|i: int| 0 <= i < p.len() && #[trigger] p[i].0@ == k),
    {
        let pairs = self.to_pairs();
        let mut out = self.id.clone();
        push_char(&mut out, '\n');
        out.append(self.version.as_str());
        push_char(&mut out, '\n');
        out.append(self.base_path.as_str());
        push_char(&mut out, '\n');
        out.append(encode_record(&pairs).as_str());
        assert(out@ =~= encode_drop_data_spec(self.id@, self.version@, self.base_path@, pairs_view(pairs@)));
        out
    }
}

/// Reads a whole per-download record; none when it is malformed.
pub fn decode_drop_data(cs: &Vec<char>) -> (r: Option<(String, String, String, Vec<(String, bool)>)>)
    ensures
        match r {
            Some((id, version, base_path, pairs)) => parse_drop_data_spec(cs@) == Some((id@, version@, base_path@, pairs_view(pairs@))),
            None => parse_drop_data_spec(cs@) is None,
        },
{
    proof {
        lemma_first_newline_bound(cs@, 0);
    }
    let a = find_newline(cs, 0);
    if a >= cs.len() {
        return None;
    }
    proof {
        lemma_first_newline_bound(cs@, a as int + 1);
    }
    let b = find_newline(cs, a + 1);
    if b >= cs.len() {
        return None;
    }
    proof {
        lemma_first_newline_bound(cs@, b as int + 1);
    }
    let c = find_newline(cs, b + 1);
    if c >= cs.len() {
        return None;
    }
    let rest = copy_tail(cs, c + 1);
    match decode_record(&rest) {
        Some(pairs) => Some((collect_chars(cs, 0, a), collect_chars(cs, a + 1, b), collect_chars(cs, b + 1, c), pairs)),
        None => None,
    }
}

/// Reading back a written per-download record gives what was written, as
/// long as no header field and no hash holds a newline.
pub proof fn lemma_drop_data_round_trip(id: Seq<char>, version: Seq<char>, base_path: Seq<char>, pairs: Seq<(Seq<char>, bool)>)
    requires
        forall|i: int| 0 <= i < id.len() ==> id[i] != '\n',
        forall|i: int| 0 <= i < version.len() ==> version[i] != '\n',
        forall|i: int| 0 <= i < base_path.len() ==> base_path[i] != '\n',
        forall|p: int, i: int| 0 <= p < pairs.len() && 0 <= i < pairs[p].0.len() ==> #[trigger] pairs[p].0[i] != '\n',
    ensures
        parse_drop_data_spec(encode_drop_data_spec(id, version, base_path, pairs)) == Some((id, version, base_path, pairs)),
{
    let cs = encode_drop_data_spec(id, version, base_path, pairs);
    let a = id.len() as int;
    let b = a + 1 + version.len();
    let c = b + 1 + base_path.len();
    let rec = encode_record_spec(pairs);
    assert(cs.len() == c + 1 + rec.len());
    assert(cs[a] == '\n');
    assert(cs[b] == '\n');
    assert(cs[c] == '\n');
    assert forall|i: int| 0 <= i < a implies cs[i] != '\n' by {
        assert(cs[i] == id[i]);
    }
    assert forall|i: int| a + 1 <= i < b implies cs[i] != '\n' by {
        assert(cs[i] == version[i - a - 1]);
    }
    assert forall|i: int| b + 1 <= i < c implies cs[i] != '\n' by {
        assert(cs[i] == base_path[i - b - 1]);
    }
    lemma_first_newline_at(cs, 0, a);
    lemma_first_newline_at(cs, a + 1, b);
    lemma_first_newline_at(cs, b + 1, c);
    assert(cs.subrange(0, a) =~= id);
    assert(cs.subrange(a + 1, b) =~= version);
    assert(cs.subrange(b + 1, c) =~= base_path);
    assert(cs.subrange(c + 1, cs.len() as int) =~= rec);
    lemma_record_round_trip(pairs);
}

} // verus!
