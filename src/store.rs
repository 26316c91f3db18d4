//! The ranked store of visited directories.
use vstd::prelude::*;
use crate::matcher::{build_pattern, contains_in_order};
use crate::record::{parse_line, record_of_line, Entry, EntryView, LineError};
use vstd::string::StrSliceExecFns;
use crate::scorer::{
    age, decay, decayed, lemma_outscores_asymmetric, lemma_outscores_past, outranks, outscores, AGING_THRESHOLD, DECAY_DEN, DECAY_NUM, MAX_RANK, UNIT,
};
use crate::text::{lower_of, lowercase};

verus! {

/// No path occurs twice.
pub open spec fn unique_paths(s: Seq<EntryView>) -> bool {
    forall|i: int, j: int| #![trigger s[i], s[j]] 0 <= i < j < s.len() ==> s[i].path != s[j].path
}

/// Every rank is within the store's limit.
pub open spec fn ranks_bounded(s: Seq<EntryView>, limit: nat) -> bool {
    forall|i: int| 0 <= i < s.len() ==> #[trigger] s[i].rank <= limit
}

pub open spec fn well_formed(s: Seq<EntryView>) -> bool {
    unique_paths(s) && ranks_bounded(s, MAX_RANK as nat)
}

pub open spec fn has_path(s: Seq<EntryView>, p: Seq<char>) -> bool {
    exists|i: int| 0 <= i < s.len() && #[trigger] s[i].path == p
}

/// Where `p` stands in `s`, or -1.
pub open spec fn position(s: Seq<EntryView>, p: Seq<char>) -> int {
    if has_path(s, p) {
        choose|i: int| 0 <= i < s.len() && #[trigger] s[i].path == p
    } else {
        -1
    }
}

/// The sum of all ranks.
pub open spec fn total(s: Seq<EntryView>) -> nat
    decreases s.len(),
{
    if s.len() == 0 {
        0
    } else {
        total(s.drop_last()) + s.last().rank
    }
}

/// Every rank multiplied by the decay factor.
pub open spec fn age_all(s: Seq<EntryView>) -> Seq<EntryView> {
    s.map_values(|e: EntryView| EntryView { path: e.path, rank: decayed(e.rank), time: e.time })
}

/// A visit of `p` at `now` without aging: one more unit of rank and a new time.
pub open spec fn upsert_visit(s: Seq<EntryView>, p: Seq<char>, now: int) -> Seq<EntryView> {
    let i = position(s, p);
    if i >= 0 {
        s.update(i, EntryView { path: p, rank: s[i].rank + UNIT as nat, time: now })
    } else {
        s.push(EntryView { path: p, rank: UNIT as nat, time: now })
    }
}

/// A visit of `p` at `now`, followed by an aging pass when the ranks then
/// sum to at least the threshold.
pub open spec fn after_visit(s: Seq<EntryView>, p: Seq<char>, now: int) -> Seq<EntryView> {
    let u = upsert_visit(s, p, now);
    if total(u) >= AGING_THRESHOLD {
        age_all(u)
    } else {
        u
    }
}

/// Where an import stopped: the number of the first bad line, counting
/// from 1, and what is wrong with it.
#[derive(Debug, Clone, Copy, PartialEq, Eq, Structural)]
pub struct ImportError {
    pub line: usize,
    pub kind: LineError,
}

/// The records of an import payload, one per non-empty line, or the
/// error of its first bad line.
pub open spec fn records_of(lines: Seq<Seq<char>>) -> Result<Seq<EntryView>, ImportError>
    decreases lines.len(),
{
    if lines.len() == 0 {
        Ok(Seq::empty())
    } else {
        match records_of(lines.drop_last()) {
            Err(e) => Err(e),
            Ok(rs) => if lines.last().len() == 0 {
                Ok(rs)
            } else {
                match record_of_line(lines.last()) {
                    Ok(e) => Ok(rs.push(e)),
                    Err(k) => Err(ImportError { line: lines.len() as usize, kind: k }),
                }
            },
        }
    }
}

/// Merges one record: a new path is added; a known one takes the record's
/// rank and time only when the record's time is strictly later.
pub open spec fn merge_record(s: Seq<EntryView>, e: EntryView) -> Seq<EntryView> {
    let i = position(s, e.path);
    if i >= 0 {
        if e.time > s[i].time {
            s.update(i, e)
        } else {
            s
        }
    } else {
        s.push(e)
    }
}

/// Merges the records in order.
pub open spec fn merge_all(s: Seq<EntryView>, recs: Seq<EntryView>) -> Seq<EntryView>
    decreases recs.len(),
{
    if recs.len() == 0 {
        s
    } else {
        merge_record(merge_all(s, recs.drop_last()), recs.last())
    }
}

/// The state after an import of `recs`, from `s` or, with `clear`, from nothing.
pub open spec fn after_import(s: Seq<EntryView>, recs: Seq<EntryView>, clear: bool) -> Seq<
    EntryView,
> {
    merge_all(
        if clear {
            Seq::empty()
        } else {
            s
        },
        recs,
    )
}

pub open spec fn lines_view(lines: Seq<String>) -> Seq<Seq<char>> {
    lines.map_values(|l: String| l@)
}

proof fn lemma_records_error_stays(lines: Seq<Seq<char>>, k: int)
    requires
        0 <= k <= lines.len(),
        records_of(lines.take(k)) is Err,
    ensures
        records_of(lines) == records_of(lines.take(k)),
    decreases lines.len() - k,
{
    if k < lines.len() {
        assert(lines.take(k + 1).drop_last() =~= lines.take(k));
        lemma_records_error_stays(lines, k + 1);
    } else {
        assert(lines.take(k) =~= lines);
    }
}

/// `a` scores strictly above `b` at time `now`.
pub open spec fn beats(a: EntryView, b: EntryView, now: int) -> bool {
    outscores(a.rank, age(a.time, now), b.rank, age(b.time, now))
}

/// The tokens of a query as the matcher reads them: lowercased.
pub open spec fn query_of(tokens: Seq<String>) -> Seq<Seq<char>> {
    tokens.map_values(|t: String| lower_of(t@))
}

/// Entry `i` matches the query, no matching entry scores above it, and
/// every matching entry before it scores strictly below it.
pub open spec fn is_best(s: Seq<EntryView>, toks: Seq<Seq<char>>, now: int, i: int) -> bool {
    &&& 0 <= i < s.len()
    &&& contains_in_order(s[i].path, toks)
    &&& forall|j: int|
        0 <= j < s.len() && contains_in_order(s[j].path, toks) ==> !beats(s[j], s[i], now)
    &&& forall|j: int| 0 <= j < i && contains_in_order(s[j].path, toks) ==> beats(s[i], s[j], now)
}

/// The store of entries.
pub struct Store {
    entries: Vec<Entry>,
}

impl View for Store {
    type V = Seq<EntryView>;

    closed spec fn view(&self) -> Seq<EntryView> {
        self.entries@.map_values(|e: Entry| e@)
    }
}

proof fn lemma_rank_in_total(s: Seq<EntryView>, i: int)
    requires
        0 <= i < s.len(),
    ensures
        s[i].rank <= total(s),
    decreases s.len(),
{
    if i < s.len() - 1 {
        lemma_rank_in_total(s.drop_last(), i);
    }
}

proof fn lemma_total_prefix(s: Seq<EntryView>, k: int)
    requires
        0 <= k <= s.len(),
    ensures
        total(s.take(k)) <= total(s),
    decreases s.len() - k,
{
    if k < s.len() {
        lemma_total_prefix(s, k + 1);
        assert(s.take(k + 1).drop_last() =~= s.take(k));
    } else {
        assert(s.take(k) =~= s);
    }
}

proof fn lemma_visit_rank_bounded(r: nat)
    requires
        r <= MAX_RANK,
    ensures
        decayed(r + UNIT as nat) <= MAX_RANK,
{
    let x = r + UNIT as nat;
    assert((x * DECAY_NUM) as int / DECAY_DEN as int <= x * DECAY_NUM / 100);
    if r >= 99 * UNIT {
        assert(x * 99 <= r * 100);
    } else {
        assert(x * 99 < 100 * UNIT * 100);
    }
}

impl Store {
    pub open spec fn wf(&self) -> bool {
        well_formed(self@)
    }

    /// An empty store.
    pub fn new() -> (r: Store)
        ensures
            r@ == Seq::<EntryView>::empty(),
            r.wf(),
    {
        let r = Store { entries: Vec::new() };
        assert(r@ =~= Seq::<EntryView>::empty());
        r
    }

    /// Where `p` stands among the entries.
    fn index_of(&self, p: &String) -> (r: Option<usize>)
        requires
            unique_paths(self@),
        ensures
            r matches Some(i) ==> i == position(self@, p@) && i < self@.len(),
            r is None ==> position(self@, p@) == -1,
    {
        let mut i: usize = 0;
        while i < self.entries.len()
            invariant
                i <= self.entries.len(),
                unique_paths(self@),
                forall|k: int| 0 <= k < i ==> self@[k].path != p@,
            decreases self.entries.len() - i,
        {
            if self.entries[i].path == *p {
                assert(self@[i as int].path == p@);
                assert(has_path(self@, p@));
                let ghost c = position(self@, p@);
                assert(0 <= c < self@.len() && self@[c].path == p@);
                assert(c == i) by {
                    if c < i {
                    } else if c > i {
                        assert(self@[i as int].path != self@[c].path);
                    }
                }
                return Some(i);
            }
            i = i + 1;
        }
        None
    }

    /// Whether the ranks sum to at least the aging threshold.
    fn reaches_aging_threshold(&self) -> (r: bool)
        requires
            ranks_bounded(self@, (MAX_RANK + UNIT) as nat),
        ensures
            r == (total(self@) >= AGING_THRESHOLD),
    {
        let ghost s = self@;
        let mut acc: u64 = 0;
        let mut i: usize = 0;
        assert(s.take(0) =~= Seq::<EntryView>::empty());
        while i < self.entries.len()
            invariant
                i <= self.entries.len(),
                s == self@,
                ranks_bounded(s, (MAX_RANK + UNIT) as nat),
                acc == total(s.take(i as int)),
                acc < AGING_THRESHOLD,
            decreases self.entries.len() - i,
        {
            assert(s.take(i + 1).drop_last() =~= s.take(i as int));
            assert(s[i as int].rank <= MAX_RANK + UNIT);
            acc = acc + self.entries[i].rank;
            i = i + 1;
            if acc >= AGING_THRESHOLD {
                proof {
                    lemma_total_prefix(s, i as int);
                }
                return true;
            }
        }
        assert(s.take(i as int) =~= s);
        false
    }

    /// Multiplies every rank by the decay factor.
    fn age_ranks(&mut self)
        ensures
            final(self)@ == age_all(old(self)@),
    {
        let ghost s = self@;
        let mut i: usize = 0;
        while i < self.entries.len()
            invariant
                i <= self.entries.len(),
                self@.len() == s.len(),
                forall|k: int| 0 <= k < i ==> #[trigger] self@[k] == age_all(s)[k],
                forall|k: int| i <= k < s.len() ==> #[trigger] self@[k] == s[k],
            decreases self.entries.len() - i,
        {
            let ghost before = self.entries@;
            let ghost before_view = self@;
            assert(self@[i as int] == s[i as int]);
            assert(before[i as int]@ == s[i as int]);
            let r = decay(self.entries[i].rank);
            self.entries[i].rank = r;
            assert(self.entries@ =~= before.update(i as int, Entry { rank: r, ..before[i as int] }));
            assert(self@[i as int] == self.entries@[i as int]@);
            assert(age_all(s)[i as int] == EntryView {
                path: s[i as int].path,
                rank: decayed(s[i as int].rank),
                time: s[i as int].time,
            });
            assert(self@[i as int] == age_all(s)[i as int]);
            assert forall|k: int| 0 <= k < s.len() && k != i implies #[trigger] self@[k]
                == before_view[k] by {
                assert(self.entries@[k] == before[k]);
            }
            i = i + 1;
        }
        assert(self@ =~= age_all(s));
    }

    /// Records a visit of `path` at time `now`.
    ///
    /// The path is lowercased. A new path enters with a rank of 1.0; a
    /// known one gains 1.0. Either way its time becomes `now`. When the
    /// ranks then sum to at least 9000.0, every rank is multiplied by 0.99.
    pub fn record_visit(&mut self, path: &str, now: i64)
        requires
            old(self).wf(),
        ensures
            final(self).wf(),
            final(self)@ == after_visit(old(self)@, lower_of(path@), now as int),
    {
        let ghost s0 = self@;
        let key = lowercase(path);
        let ghost p = key@;
        match self.index_of(&key) {
            Some(i) => {
                let r = self.entries[i].rank;
                assert(s0[i as int].rank <= MAX_RANK);
                self.entries.set(i, Entry { path: key, rank: r + UNIT, time: now });
                assert(self@ =~= s0.update(
                    i as int,
                    EntryView { path: p, rank: s0[i as int].rank + UNIT as nat, time: now as int },
                ));
            },
            None => {
                self.entries.push(Entry { path: key, rank: UNIT, time: now });
                assert(self@ =~= s0.push(EntryView { path: p, rank: UNIT as nat, time: now as int }));
            },
        }
        let ghost u = self@;
        assert(u == upsert_visit(s0, p, now as int));
        assert(unique_paths(u)) by {
            if !has_path(s0, p) {
                assert forall|i: int, j: int| 0 <= i < j < u.len() implies u[i].path != u[j].path by {
                    if j == s0.len() {
                        assert(s0[i].path != p);
                    } else {
                        assert(s0[i].path != s0[j].path);
                    }
                }
            } else {
                assert forall|i: int, j: int| 0 <= i < j < u.len() implies u[i].path != u[j].path by {
                    assert(u[i].path == s0[i].path);
                    assert(u[j].path == s0[j].path);
                    assert(s0[i].path != s0[j].path);
                }
            }
        }
        assert(ranks_bounded(u, (MAX_RANK + UNIT) as nat)) by {
            assert forall|k: int| 0 <= k < u.len() implies #[trigger] u[k].rank <= MAX_RANK + UNIT by {
                if k < s0.len() {
                    assert(s0[k].rank <= MAX_RANK);
                }
            }
        }
        if self.reaches_aging_threshold() {
            self.age_ranks();
            assert forall|k: int| 0 <= k < u.len() implies #[trigger] self@[k].rank <= MAX_RANK by {
                assert(self@[k].rank == decayed(u[k].rank));
                if k < s0.len() && u[k] == s0[k] {
                    assert(s0[k].rank <= MAX_RANK);
                    assert(decayed(u[k].rank) <= u[k].rank) by (nonlinear_arith);
                } else if k < s0.len() {
                    assert(s0[k].rank <= MAX_RANK);
                    lemma_visit_rank_bounded(s0[k].rank);
                } else {
                    lemma_visit_rank_bounded(0);
                }
            }
        } else {
            assert forall|k: int| 0 <= k < u.len() implies #[trigger] u[k].rank <= MAX_RANK by {
                lemma_rank_in_total(u, k);
            }
        }
    }
}

impl Store {
    /// The path that best matches the query at time `now`: among the
    /// entries that contain every lowercased token in order, the one of
    /// highest score, the earliest of those on a tie. `None` when the
    /// query is empty or nothing matches.
    pub fn find_best(&self, tokens: &Vec<String>, now: i64) -> (r: Option<String>)
        requires
            self.wf(),
        ensures
            r is None <==> (tokens.len() == 0 || forall|i: int|
                0 <= i < self@.len() ==> !contains_in_order(self@[i].path, query_of(tokens@))),
            r matches Some(p) ==> exists|i: int|
                is_best(self@, query_of(tokens@), now as int, i) && p@ == self@[i].path,
    {
        let pat = build_pattern(tokens);
        let ghost toks = query_of(tokens@);
        assert(pat@ =~= toks);
        if pat.is_empty() {
            return None;
        }
        let ghost s = self@;
        let mut best: Option<usize> = None;
        let mut i: usize = 0;
        while i < self.entries.len()
            invariant
                i <= self.entries.len(),
                s == self@,
                pat@ == toks,
                well_formed(s),
                best is None ==> forall|j: int| 0 <= j < i ==> !contains_in_order(s[j].path, toks),
                best matches Some(b) ==> b < i && contains_in_order(s[b as int].path, toks)
                    && (forall|j: int|
                    0 <= j < i && contains_in_order(s[j].path, toks) ==> !beats(
                        s[j],
                        s[b as int],
                        now as int,
                    )) && (forall|j: int|
                    0 <= j < b && contains_in_order(s[j].path, toks) ==> beats(
                        s[b as int],
                        s[j],
                        now as int,
                    )),
            decreases self.entries.len() - i,
        {
            let e = &self.entries[i];
            assert(s[i as int] == e@);
            if pat.matches(e.path.as_str()) {
                match best {
                    None => {
                        best = Some(i);
                        proof {
                            assert forall|j: int|
                                0 <= j < i + 1 && contains_in_order(s[j].path, toks) implies !beats(
                                s[j],
                                s[i as int],
                                now as int,
                            ) by {
                                if j == i {
                                    lemma_outscores_irreflexive(s[j], now as int);
                                }
                            }
                        }
                    },
                    Some(b) => {
                        let eb = &self.entries[b];
                        assert(s[b as int] == eb@);
                        assert(s[i as int].rank <= MAX_RANK && s[b as int].rank <= MAX_RANK);
                        if outranks(e.rank, e.time, eb.rank, eb.time, now) {
                            proof {
                                assert forall|j: int|
                                    0 <= j < i && contains_in_order(s[j].path, toks) implies beats(
                                    s[i as int],
                                    s[j],
                                    now as int,
                                ) by {
                                    lemma_outscores_past(
                                        s[i as int].rank,
                                        age(s[i as int].time, now as int),
                                        s[b as int].rank,
                                        age(s[b as int].time, now as int),
                                        s[j].rank,
                                        age(s[j].time, now as int),
                                    );
                                }
                                assert forall|j: int|
                                    0 <= j < i + 1 && contains_in_order(s[j].path, toks) implies !beats(
                                    s[j],
                                    s[i as int],
                                    now as int,
                                ) by {
                                    if j == i {
                                        lemma_outscores_irreflexive(s[j], now as int);
                                    } else {
                                        lemma_outscores_asymmetric(
                                            s[i as int].rank,
                                            age(s[i as int].time, now as int),
                                            s[j].rank,
                                            age(s[j].time, now as int),
                                        );
                                    }
                                }
                            }
                            best = Some(i);
                        }
                    },
                }
            }
            i = i + 1;
        }
        match best {
            None => None,
            Some(b) => {
                assert(is_best(s, toks, now as int, b as int));
                Some(self.entries[b].path.clone())
            },
        }
    }
}

impl Store {
    /// Merges one record into the store.
    fn merge(&mut self, e: Entry)
        requires
            old(self).wf(),
            e.rank <= MAX_RANK,
        ensures
            final(self).wf(),
            final(self)@ == merge_record(old(self)@, e@),
    {
        let ghost s0 = self@;
        let ghost ev = e@;
        match self.index_of(&e.path) {
            Some(i) => {
                if e.time > self.entries[i].time {
                    self.entries.set(i, e);
                    assert(self@ =~= s0.update(i as int, ev));
                    assert(unique_paths(self@)) by {
                        assert forall|a: int, b: int| 0 <= a < b < self@.len() implies self@[a].path
                            != self@[b].path by {
                            assert(self@[a].path == s0[a].path);
                            assert(self@[b].path == s0[b].path);
                            assert(s0[a].path != s0[b].path);
                        }
                    }
                } else {
                    assert(self@ == s0);
                }
            },
            None => {
                self.entries.push(e);
                assert(self@ =~= s0.push(ev));
                assert(unique_paths(self@)) by {
                    assert forall|a: int, b: int| 0 <= a < b < self@.len() implies self@[a].path
                        != self@[b].path by {
                        if b == s0.len() {
                            assert(s0[a].path != ev.path);
                        } else {
                            assert(s0[a].path != s0[b].path);
                        }
                    }
                }
            },
        }
        assert(ranks_bounded(self@, MAX_RANK as nat)) by {
            assert forall|k: int| 0 <= k < self@.len() implies #[trigger] self@[k].rank <= MAX_RANK by {
                if k < s0.len() {
                    assert(s0[k].rank <= MAX_RANK);
                }
            }
        }
    }

    /// Imports the legacy `path|rank|time` payload, one record per line.
    ///
    /// Empty lines are skipped and paths are lowercased. With `clear` the
    /// store is emptied first. Each record then adds its path, or replaces a
    /// known path's rank and time when its time is strictly later. Returns
    /// the number of records read. When a line cannot be read nothing
    /// changes and the error names the first such line.
    pub fn import(&mut self, lines: &Vec<String>, clear: bool) -> (r: Result<usize, ImportError>)
        requires
            old(self).wf(),
        ensures
            final(self).wf(),
            match records_of(lines_view(lines@)) {
                Err(e) => r == Err::<usize, ImportError>(e) && final(self)@ == old(self)@,
                Ok(recs) => r == Ok::<usize, ImportError>(recs.len() as usize) && final(self)@
                    == after_import(old(self)@, recs, clear),
            },
    {
        let ghost lv = lines_view(lines@);
        let mut recs: Vec<Entry> = Vec::new();
        let mut k: usize = 0;
        let ghost s0 = self@;
        assert(lv.take(0) =~= Seq::<Seq<char>>::empty());
        assert(recs@.map_values(|e: Entry| e@) =~= Seq::<EntryView>::empty());
        while k < lines.len()
            invariant
                k <= lines.len(),
                self.wf(),
                self@ == s0,
                s0 == old(self)@,
                lv == lines_view(lines@),
                records_of(lv.take(k as int)) == Ok::<Seq<EntryView>, ImportError>(
                    recs@.map_values(|e: Entry| e@),
                ),
                recs.len() <= k,
                forall|j: int| 0 <= j < recs.len() ==> #[trigger] recs@[j].rank <= MAX_RANK,
            decreases lines.len() - k,
        {
            let line = &lines[k];
            assert(lv[k as int] == line@);
            assert(lv.take(k + 1).drop_last() =~= lv.take(k as int));
            assert(lv.take(k + 1).last() == line@);
            if line.as_str().unicode_len() > 0 {
                match parse_line(line.as_str()) {
                    Ok(e) => {
                        let ghost before = recs@;
                        recs.push(e);
                        assert(recs@.map_values(|e: Entry| e@) =~= before.map_values(|e: Entry| e@).push(e@));
                    },
                    Err(kind) => {
                        let err = ImportError { line: k + 1, kind };
                        proof {
                            lemma_records_error_stays(lv, k + 1);
                        }
                        return Err(err);
                    },
                }
            }
            k = k + 1;
        }
        assert(lv.take(k as int) =~= lv);
        let ghost rv = recs@.map_values(|e: Entry| e@);
        let ghost base = if clear {
            Seq::<EntryView>::empty()
        } else {
            self@
        };
        if clear {
            self.entries = Vec::new();
            assert(self@ =~= Seq::<EntryView>::empty());
        }
        let n = recs.len();
        let ghost recs_seq = recs@;
        assert(rv.take(0) =~= Seq::<EntryView>::empty());
        for e in it: recs
            invariant
                self.wf(),
                it.seq() == recs_seq,
                rv == recs_seq.map_values(|e: Entry| e@),
                self@ == merge_all(base, rv.take(it.index())),
                forall|q: int| 0 <= q < recs_seq.len() ==> #[trigger] recs_seq[q].rank <= MAX_RANK,
        {
            let ghost j = it.index();
            assert(rv.take(j + 1).drop_last() =~= rv.take(j));
            assert(it.seq()[j] == e);
            assert(recs_seq[j].rank <= MAX_RANK);
            self.merge(e);
        }
        assert(rv.take(rv.len() as int) =~= rv);
        Ok(n)
    }
}

impl Store {
    /// A store holding `entries`, in order; `None` when a path occurs twice
    /// or a rank exceeds the limit.
    pub fn from_entries(entries: Vec<Entry>) -> (r: Option<Store>)
        ensures
            r is None <==> !well_formed(entries@.map_values(|e: Entry| e@)),
            r matches Some(st) ==> st.wf() && st@ == entries@.map_values(|e: Entry| e@),
    {
        let ghost v = entries@.map_values(|e: Entry| e@);
        let mut i: usize = 0;
        while i < entries.len()
            invariant
                i <= entries.len(),
                v == entries@.map_values(|e: Entry| e@),
                well_formed(v.take(i as int)),
            decreases entries.len() - i,
        {
            if entries[i].rank > MAX_RANK {
                assert(v[i as int].rank > MAX_RANK);
                return None;
            }
            let mut j: usize = 0;
            while j < i
                invariant
                    j <= i < entries.len(),
                    v == entries@.map_values(|e: Entry| e@),
                    forall|k: int| 0 <= k < j ==> v[k].path != v[i as int].path,
                decreases i - j,
            {
                if entries[j].path == entries[i].path {
                    assert(v[j as int].path == v[i as int].path);
                    return None;
                }
                j = j + 1;
            }
            assert(v.take(i + 1) =~= v.take(i as int).push(v[i as int]));
            assert(well_formed(v.take(i + 1))) by {
                let w = v.take(i + 1);
                assert forall|a: int, b: int| 0 <= a < b < w.len() implies w[a].path != w[b].path by {
                    if b == i {
                        assert(v[a].path != v[i as int].path);
                    } else {
                        assert(v.take(i as int)[a].path != v.take(i as int)[b].path);
                    }
                }
                assert forall|a: int| 0 <= a < w.len() implies #[trigger] w[a].rank <= MAX_RANK by {
                    if a < i {
                        assert(v.take(i as int)[a].rank <= MAX_RANK);
                    }
                }
            }
            i = i + 1;
        }
        assert(v.take(i as int) =~= v);
        let st = Store { entries };
        assert(st@ =~= v);
        Some(st)
    }

    /// The entries, in order.
    pub fn entries(&self) -> (r: &Vec<Entry>)
        ensures
            r@.map_values(|e: Entry| e@) == self@,
    {
        &self.entries
    }

    /// The number of entries.
    pub fn len(&self) -> (r: usize)
        ensures
            r == self@.len(),
    {
        self.entries.len()
    }

    /// The entry of `path`, lowercased, if the store holds it.
    pub fn lookup(&self, path: &str) -> (r: Option<Entry>)
        requires
            self.wf(),
        ensures
            r is None <==> !has_path(self@, lower_of(path@)),
            r matches Some(e) ==> e@ == self@[position(self@, lower_of(path@))],
    {
        let key = lowercase(path);
        match self.index_of(&key) {
            None => None,
            Some(i) => {
                let e = &self.entries[i];
                let c = Entry { path: e.path.clone(), rank: e.rank, time: e.time };
                assert(c@ == self@[i as int]);
                Some(c)
            },
        }
    }
}

proof fn lemma_position_unique(t: Seq<EntryView>, i: int)
    requires
        unique_paths(t),
        0 <= i < t.len(),
    ensures
        position(t, t[i].path) == i,
{
    assert(has_path(t, t[i].path));
    let c = position(t, t[i].path);
    assert(0 <= c < t.len() && t[c].path == t[i].path);
    if c < i {
        assert(t[c].path != t[i].path);
    } else if c > i {
        assert(t[i].path != t[c].path);
    }
}

proof fn lemma_merge_keeps_unique(t: Seq<EntryView>, e: EntryView)
    requires
        unique_paths(t),
    ensures
        unique_paths(merge_record(t, e)),
{
    let u = merge_record(t, e);
    let i = position(t, e.path);
    if i >= 0 {
        assert(has_path(t, e.path));
        assert forall|a: int, b: int| 0 <= a < b < u.len() implies u[a].path != u[b].path by {
            assert(u[a].path == t[a].path);
            assert(u[b].path == t[b].path);
            assert(t[a].path != t[b].path);
        }
    } else {
        assert forall|a: int, b: int| 0 <= a < b < u.len() implies u[a].path != u[b].path by {
            if b == t.len() {
                assert(!has_path(t, e.path));
                assert(t[a].path != e.path);
            } else {
                assert(t[a].path != t[b].path);
            }
        }
    }
}

proof fn lemma_merge_all_keeps_unique(s: Seq<EntryView>, recs: Seq<EntryView>)
    requires
        unique_paths(s),
    ensures
        unique_paths(merge_all(s, recs)),
    decreases recs.len(),
{
    if recs.len() > 0 {
        lemma_merge_all_keeps_unique(s, recs.drop_last());
        lemma_merge_keeps_unique(merge_all(s, recs.drop_last()), recs.last());
    }
}

/// `t` holds the path of `e` with a time no earlier than that of `e`.
pub open spec fn covers(t: Seq<EntryView>, e: EntryView) -> bool {
    exists|i: int| 0 <= i < t.len() && #[trigger] t[i].path == e.path && t[i].time >= e.time
}

proof fn lemma_merge_covers(t: Seq<EntryView>, e: EntryView, f: EntryView)
    requires
        unique_paths(t),
        covers(t, f),
    ensures
        covers(merge_record(t, e), e),
        covers(merge_record(t, e), f),
{
    let u = merge_record(t, e);
    let i = position(t, e.path);
    let c = choose|c: int| 0 <= c < t.len() && #[trigger] t[c].path == f.path && t[c].time >= f.time;
    if i >= 0 {
        assert(has_path(t, e.path));
        assert(t[i].path == e.path);
        if e.time > t[i].time {
            assert(u[i].path == e.path && u[i].time >= e.time);
            if c == i {
                assert(u[c].path == f.path && u[c].time >= f.time);
            } else {
                assert(u[c] == t[c]);
            }
        } else {
            assert(u[i].path == e.path && u[i].time >= e.time);
            assert(u[c] == t[c]);
        }
    } else {
        assert(u[t.len() as int].path == e.path && u[t.len() as int].time >= e.time);
        assert(u[c] == t[c]);
    }
}

proof fn lemma_merge_all_covers(s: Seq<EntryView>, recs: Seq<EntryView>)
    requires
        unique_paths(s),
    ensures
        forall|q: int| 0 <= q < recs.len() ==> covers(merge_all(s, recs), #[trigger] recs[q]),
    decreases recs.len(),
{
    if recs.len() > 0 {
        let prev = recs.drop_last();
        lemma_merge_all_covers(s, prev);
        lemma_merge_all_keeps_unique(s, prev);
        let t = merge_all(s, prev);
        assert forall|q: int| 0 <= q < recs.len() implies covers(merge_all(s, recs), #[trigger] recs[q]) by {
            if q < prev.len() {
                assert(recs[q] == prev[q]);
                lemma_merge_covers(t, recs.last(), recs[q]);
            } else {
                if t.len() > 0 {
                    assert(covers(t, t[0]));
                    lemma_merge_covers(t, recs.last(), t[0]);
                } else {
                    let u = merge_record(t, recs.last());
                    assert(position(t, recs.last().path) == -1);
                    assert(u[0].path == recs.last().path && u[0].time >= recs.last().time);
                }
            }
        }
    }
}

proof fn lemma_merge_covered(t: Seq<EntryView>, e: EntryView)
    requires
        unique_paths(t),
        covers(t, e),
    ensures
        merge_record(t, e) == t,
{
    let c = choose|c: int| 0 <= c < t.len() && #[trigger] t[c].path == e.path && t[c].time >= e.time;
    lemma_position_unique(t, c);
}

/// Importing the same records a second time, without clearing, changes
/// nothing: the state is the one the first import left.
pub proof fn lemma_import_idempotent(s: Seq<EntryView>, recs: Seq<EntryView>)
    requires
        well_formed(s),
    ensures
        after_import(after_import(s, recs, false), recs, false) == after_import(s, recs, false),
{
    let t = merge_all(s, recs);
    lemma_merge_all_covers(s, recs);
    lemma_merge_all_keeps_unique(s, recs);
    lemma_merge_again(t, recs, recs.len() as int);
    assert(recs.take(recs.len() as int) =~= recs);
}

proof fn lemma_merge_again(t: Seq<EntryView>, recs: Seq<EntryView>, k: int)
    requires
        unique_paths(t),
        0 <= k <= recs.len(),
        forall|q: int| 0 <= q < recs.len() ==> covers(t, #[trigger] recs[q]),
    ensures
        merge_all(t, recs.take(k)) == t,
    decreases k,
{
    if k > 0 {
        lemma_merge_again(t, recs, k - 1);
        assert(recs.take(k).drop_last() =~= recs.take(k - 1));
        assert(recs.take(k).last() == recs[k - 1]);
        lemma_merge_covered(t, recs[k - 1]);
    }
}

/// An import with `clear` leaves exactly the imported records, in order,
/// whatever the store held before, when no path occurs twice among them.
pub proof fn lemma_import_clear_replaces(s: Seq<EntryView>, recs: Seq<EntryView>)
    requires
        unique_paths(recs),
    ensures
        after_import(s, recs, true) == recs,
    decreases recs.len(),
{
    if recs.len() > 0 {
        let prev = recs.drop_last();
        assert(unique_paths(prev)) by {
            assert forall|a: int, b: int| 0 <= a < b < prev.len() implies prev[a].path != prev[b].path by {
                assert(recs[a].path != recs[b].path);
            }
        }
        lemma_import_clear_replaces(s, prev);
        assert(!has_path(prev, recs.last().path)) by {
            assert forall|a: int| 0 <= a < prev.len() implies #[trigger] prev[a].path != recs.last().path by {
                assert(recs[a].path != recs[recs.len() - 1].path);
            }
        }
        assert(prev.push(recs.last()) =~= recs);
    }
}

/// An aging pass scales the sum of the ranks by 0.99: never above it, and
/// below it by less than one unit per entry, lost to rounding down.
pub proof fn lemma_aging_scales_total(s: Seq<EntryView>)
    ensures
        total(age_all(s)) * DECAY_DEN <= total(s) * DECAY_NUM,
        total(s) * DECAY_NUM <= total(age_all(s)) * DECAY_DEN + DECAY_NUM * s.len(),
    decreases s.len(),
{
    if s.len() > 0 {
        let prev = s.drop_last();
        lemma_aging_scales_total(prev);
        assert(age_all(s).drop_last() =~= age_all(prev));
        let r = s.last().rank;
        let d = decayed(r);
        assert(d * 100 <= r * 99 && r * 99 <= d * 100 + 99) by (nonlinear_arith)
            requires
                d == (r * 99) as int / 100,
        ;
        assert(age_all(s).last().rank == d);
    }
}

/// The state after visiting `p` once at each time of `nows`, in order.
pub open spec fn visit_each(s: Seq<EntryView>, p: Seq<char>, nows: Seq<int>) -> Seq<EntryView>
    decreases nows.len(),
{
    if nows.len() == 0 {
        s
    } else {
        after_visit(visit_each(s, p, nows.drop_last()), p, nows.last())
    }
}

/// The rank that visits of a new path at the times `nows` build: one unit
/// per visit, and after each visit that set off an aging pass, the rank
/// so far multiplied by 0.99 and rounded down.
pub open spec fn rank_through(s: Seq<EntryView>, p: Seq<char>, nows: Seq<int>) -> nat
    decreases nows.len(),
{
    if nows.len() == 0 {
        0
    } else {
        let r = rank_through(s, p, nows.drop_last()) + UNIT;
        if total(upsert_visit(visit_each(s, p, nows.drop_last()), p, nows.last()))
            >= AGING_THRESHOLD {
            decayed(r as nat)
        } else {
            r as nat
        }
    }
}

pub open spec fn pow100(k: nat) -> nat
    decreases k,
{
    if k == 0 {
        1
    } else {
        100 * pow100((k - 1) as nat)
    }
}

/// The exact rank that visits of a new path at the times `nows` would
/// build without rounding, as a pair `(n, k)`: the rank is `n / 100^k`
/// units, where `k` counts the aging passes, each a factor of 99/100.
pub open spec fn exact_rank(s: Seq<EntryView>, p: Seq<char>, nows: Seq<int>) -> (nat, nat)
    decreases nows.len(),
{
    if nows.len() == 0 {
        (0, 0)
    } else {
        let (n, k) = exact_rank(s, p, nows.drop_last());
        let n1: nat = (n + UNIT * pow100(k)) as nat;
        if total(upsert_visit(visit_each(s, p, nows.drop_last()), p, nows.last()))
            >= AGING_THRESHOLD {
            ((n1 * DECAY_NUM) as nat, k + 1)
        } else {
            (n1, k)
        }
    }
}

/// The stored rank is the exact one rounded down, by less than one unit
/// (a millionth) for each aging pass: with `(n, k) = exact_rank(..)` and
/// `r = rank_through(..)`, `r <= n / 100^k <= r + k`.
pub proof fn lemma_rank_near_exact(s: Seq<EntryView>, p: Seq<char>, nows: Seq<int>)
    ensures
        rank_through(s, p, nows) * pow100(exact_rank(s, p, nows).1) <= exact_rank(s, p, nows).0,
        exact_rank(s, p, nows).0 <= (rank_through(s, p, nows) + exact_rank(s, p, nows).1) * pow100(
            exact_rank(s, p, nows).1,
        ),
    decreases nows.len(),
{
    if nows.len() > 0 {
        let prev = nows.drop_last();
        lemma_rank_near_exact(s, p, prev);
        let (n, k) = exact_rank(s, p, prev);
        let q = rank_through(s, p, prev);
        let pk = pow100(k);
        let r: nat = (q + UNIT) as nat;
        let n1: nat = (n + UNIT * pk) as nat;
        assert(r * pk <= n1 && n1 <= (r + k) * pk) by (nonlinear_arith)
            requires
                q * pk <= n,
                n <= (q + k) * pk,
                r == q + UNIT,
                n1 == n + UNIT * pk,
        ;
        if total(upsert_visit(visit_each(s, p, prev), p, nows.last())) >= AGING_THRESHOLD {
            let d = decayed(r as nat);
            assert(d * 100 <= r * 99 && r * 99 <= d * 100 + 99) by (nonlinear_arith)
                requires
                    d == (r * 99) as int / 100,
            ;
            assert(pow100(k + 1) == 100 * pk);
            assert(d * (100 * pk) <= n1 * 99) by (nonlinear_arith)
                requires
                    d * 100 <= r * 99,
                    r * pk <= n1,
            ;
            assert(n1 * 99 <= (d + k + 1) * (100 * pk)) by (nonlinear_arith)
                requires
                    r * 99 <= d * 100 + 99,
                    n1 <= (r + k) * pk,
            ;
            assert(rank_through(s, p, nows) == d);
            assert(exact_rank(s, p, nows) == ((n1 * DECAY_NUM) as nat, k + 1));
            assert(d * pow100(k + 1) == d * (100 * pk));
            assert(d * pow100(k + 1) <= n1 * 99);
        } else {
            assert(rank_through(s, p, nows) == r);
            assert(exact_rank(s, p, nows) == (n1, k));
        }
    } else {
        assert(exact_rank(s, p, nows) == (0nat, 0nat));
        assert(rank_through(s, p, nows) == 0);
        assert(0 * pow100(0) == 0);
    }
}

proof fn lemma_visit_keeps_unique(s: Seq<EntryView>, p: Seq<char>, now: int)
    requires
        unique_paths(s),
    ensures
        unique_paths(after_visit(s, p, now)),
        unique_paths(upsert_visit(s, p, now)),
{
    let u = upsert_visit(s, p, now);
    if has_path(s, p) {
        assert forall|a: int, b: int| 0 <= a < b < u.len() implies u[a].path != u[b].path by {
            assert(u[a].path == s[a].path);
            assert(u[b].path == s[b].path);
            assert(s[a].path != s[b].path);
        }
    } else {
        assert forall|a: int, b: int| 0 <= a < b < u.len() implies u[a].path != u[b].path by {
            if b == s.len() {
                assert(s[a].path != p);
            } else {
                assert(s[a].path != s[b].path);
            }
        }
    }
    let w = age_all(u);
    assert forall|a: int, b: int| 0 <= a < b < w.len() implies w[a].path != w[b].path by {
        assert(w[a].path == u[a].path && w[b].path == u[b].path);
    }
}

/// Visits of a path new to the store, at the times `nows`: the path then
/// stands once in the store, with the rank `rank_through` describes and
/// the time of the last visit.
pub proof fn lemma_visits_build_rank(s: Seq<EntryView>, p: Seq<char>, nows: Seq<int>)
    requires
        unique_paths(s),
        !has_path(s, p),
        nows.len() > 0,
    ensures
        has_path(visit_each(s, p, nows), p),
        unique_paths(visit_each(s, p, nows)),
        visit_each(s, p, nows)[position(visit_each(s, p, nows), p)].rank == rank_through(s, p, nows),
        visit_each(s, p, nows)[position(visit_each(s, p, nows), p)].time == nows.last(),
    decreases nows.len(),
{
    let prev_nows = nows.drop_last();
    let prev = visit_each(s, p, prev_nows);
    let now = nows.last();
    let u = upsert_visit(prev, p, now);
    let t = visit_each(s, p, nows);
    if nows.len() == 1 {
        assert(prev_nows.len() == 0);
        assert(prev == s);
        assert(rank_through(s, p, prev_nows) == 0);
        assert(u[s.len() as int].path == p);
    } else {
        lemma_visits_build_rank(s, p, prev_nows);
        let i = position(prev, p);
        assert(0 <= i < prev.len() && prev[i].path == p);
        assert(u[i].path == p);
        assert(u[i].rank == rank_through(s, p, prev_nows) + UNIT);
    }
    lemma_visit_keeps_unique(prev, p, now);
    let k = if nows.len() == 1 {
        s.len() as int
    } else {
        position(prev, p)
    };
    assert(u[k].rank == rank_through(s, p, prev_nows) + UNIT);
    assert(t == after_visit(prev, p, now));
    if total(u) >= AGING_THRESHOLD {
        assert(t[k].rank == decayed(u[k].rank));
    } else {
        assert(t[k] == u[k]);
    }
    assert(t[k].rank == rank_through(s, p, nows));
    assert(t[k].path == p);
    assert(has_path(t, p));
    lemma_position_unique(t, k);
}

proof fn lemma_outscores_irreflexive(e: EntryView, now: int)
    ensures
        !beats(e, e, now),
{
}

} // verus!
