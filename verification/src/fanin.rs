//! Fan-in aggregation of one directory level.
//!
//! Every task a level dispatches owes its collector exactly one result,
//! whether the probe succeeded or failed. The collector accepts at most
//! one result per dispatched task (it can never double-count), knows
//! when every owed result has arrived, and then aggregates: results are
//! ordered by path and their durations summed. The sum is the same in
//! whatever order the results arrived, because addition of
//! microseconds is commutative; the ordering serves reproducible
//! diagnostics alone.

use vstd::prelude::*;
use vstd::seq_lib::commutative_foldr;
use vstd::seq_lib::group_to_multiset_ensures;
use vstd::seq_lib::lemma_fold_right_permutation;
use vstd::multiset::group_multiset_axioms;

use crate::entry::Entry;
use crate::entry::Task;
use crate::entry::count_subdirectories;
use crate::entry::count_video_files;
use crate::entry::lemma_task_count;
use crate::entry::planned_tasks;
use crate::order::lemma_lex_total;
use crate::order::lemma_lex_transitive;
use crate::order::lex_leq;
use crate::order::path_leq;

verus! {

/// One task's outcome: the path it was keyed by and the microseconds it
/// contributes (a recognized file's probed duration, or a subdirectory's
/// own aggregated total).
pub struct ProbeResult {
    /// Path of the probed file or traversed subdirectory.
    pub path: String,
    /// Contributed duration in whole microseconds.
    pub micros: u64,
}

/// Mathematical image of a result: the characters of its path and its
/// contribution.
pub struct ResultModel {
    pub path: Seq<char>,
    pub micros: u64,
}

impl ProbeResult {
    pub open spec fn model(self) -> ResultModel {
        ResultModel { path: self.path@, micros: self.micros }
    }
}

pub open spec fn models(s: Seq<ProbeResult>) -> Seq<ResultModel> {
    s.map_values(|r: ProbeResult| r.model())
}

pub open spec fn add_contribution() -> spec_fn(ResultModel, int) -> int {
    |r: ResultModel, acc: int| r.micros + acc
}

/// Sum of all contributions, in unbounded integers.
pub open spec fn sum_micros(s: Seq<ResultModel>) -> int {
    s.fold_right(add_contribution(), 0)
}

/// The sum, clamped to what a `u64` can hold.
pub open spec fn clamped_sum(s: Seq<ResultModel>) -> int {
    if sum_micros(s) <= u64::MAX as int {
        sum_micros(s)
    } else {
        u64::MAX as int
    }
}

/// Results ordered by path, lexicographically over the full path string.
pub open spec fn sorted_by_path(s: Seq<ResultModel>) -> bool {
    forall|x: int, y: int| 0 <= x < y < s.len() ==> lex_leq(s[x].path, s[y].path)
}

proof fn lemma_fold_base(s: Seq<ResultModel>, b: int)
    ensures
        s.fold_right(add_contribution(), b) == sum_micros(s) + b,
    decreases s.len(),
{
    if s.len() > 0 {
        lemma_fold_base(s.drop_last(), s.last().micros + b);
        lemma_fold_base(s.drop_last(), s.last().micros + 0);
    }
}

proof fn lemma_sum_push(s: Seq<ResultModel>, r: ResultModel)
    ensures
        sum_micros(s.push(r)) == sum_micros(s) + r.micros,
{
    assert(s.push(r).drop_last() =~= s);
    assert(s.push(r).last() == r);
    lemma_fold_base(s, r.micros + 0);
}

proof fn lemma_sum_nonneg(s: Seq<ResultModel>)
    ensures
        sum_micros(s) >= 0,
    decreases s.len(),
{
    if s.len() > 0 {
        lemma_sum_nonneg(s.drop_last());
        assert(sum_micros(s) == sum_micros(s.drop_last()) + s.last().micros) by {
            lemma_sum_push(s.drop_last(), s.last());
            assert(s.drop_last().push(s.last()) =~= s);
        }
    }
}

/// The total is independent of the order in which results arrived:
/// any two arrival orders holding the same results sum to the same
/// number of microseconds.
pub proof fn lemma_sum_order_independent(a: Seq<ResultModel>, b: Seq<ResultModel>)
    requires
        a.to_multiset() == b.to_multiset(),
    ensures
        sum_micros(a) == sum_micros(b),
{
    assert(commutative_foldr(add_contribution()));
    lemma_fold_right_permutation(a, b, add_contribution(), 0);
}

/// Sum the results' contributions; a sum beyond `u64::MAX`
/// microseconds saturates there.
pub fn sum_durations(results: &Vec<ProbeResult>) -> (total: u64)
    ensures
        total as int == clamped_sum(models(results@)),
{
    let mut total: u64 = 0;
    let mut i: usize = 0;
    while i < results.len()
        invariant
            i <= results@.len(),
            total as int == clamped_sum(models(results@.subrange(0, i as int))),
        decreases results@.len() - i,
    {
        let ghost prefix = models(results@.subrange(0, i as int));
        let ghost longer = models(results@.subrange(0, i + 1));
        proof {
            assert(longer =~= prefix.push(results@[i as int].model()));
            lemma_sum_push(prefix, results@[i as int].model());
            lemma_sum_nonneg(prefix);
        }
        let m = results[i].micros;
        if m > u64::MAX - total {
            total = u64::MAX;
        } else {
            total = total + m;
        }
        i = i + 1;
    }
    proof {
        assert(results@.subrange(0, results@.len() as int) =~= results@);
    }
    total
}

proof fn lemma_insert_to_multiset<A>(s: Seq<A>, i: int, e: A)
    requires
        0 <= i <= s.len(),
    ensures
        s.insert(i, e).to_multiset() =~= s.to_multiset().insert(e),
{
    broadcast use group_to_multiset_ensures;
    broadcast use group_multiset_axioms;

    let t = s.insert(i, e);
    assert(t.remove(i) =~= s);
    assert(t[i] == e);
    assert(t.remove(i).to_multiset() =~= t.to_multiset().remove(e));
    assert(t.to_multiset().count(e) >= 1) by {
        assert(t.contains(e));
    }
    assert forall|x: A| t.to_multiset().count(x) == s.to_multiset().insert(e).count(x) by {
        assert(s.to_multiset().count(x) == t.to_multiset().remove(e).count(x));
    }
}

proof fn lemma_swap_adjacent_multiset<A>(s: Seq<A>, j: int)
    requires
        1 <= j < s.len(),
    ensures
        s.remove(j).insert(j - 1, s[j]).to_multiset() =~= s.to_multiset(),
{
    broadcast use group_to_multiset_ensures;
    broadcast use group_multiset_axioms;

    let r = s.remove(j);
    assert(r.to_multiset() =~= s.to_multiset().remove(s[j]));
    lemma_insert_to_multiset(r, j - 1, s[j]);
    assert(s.to_multiset().count(s[j]) >= 1) by {
        assert(s.contains(s[j]));
    }
    assert forall|x: A|
        r.insert(j - 1, s[j]).to_multiset().count(x) == s.to_multiset().count(x) by {
        assert(r.insert(j - 1, s[j]).to_multiset().count(x) == s.to_multiset().remove(
            s[j],
        ).insert(s[j]).count(x));
    }
}

proof fn lemma_models_remove(s: Seq<ProbeResult>, j: int)
    requires
        0 <= j < s.len(),
    ensures
        models(s.remove(j)) =~= models(s).remove(j),
{
}

proof fn lemma_models_insert(s: Seq<ProbeResult>, j: int, r: ProbeResult)
    requires
        0 <= j <= s.len(),
    ensures
        models(s.insert(j, r)) =~= models(s).insert(j, r.model()),
{
}

/// Order a level's results by path. The same results come out that
/// went in; only their order changes.
pub fn sort_by_path(results: Vec<ProbeResult>) -> (out: Vec<ProbeResult>)
    ensures
        out@.len() == results@.len(),
        models(out@).to_multiset() == models(results@).to_multiset(),
        sorted_by_path(models(out@)),
{
    let mut v = results;
    let ghost orig = v@;
    let mut i: usize = 1;
    while i < v.len()
        invariant
            1 <= i,
            i <= v@.len() || v@.len() == 0,
            v@.len() == orig.len(),
            models(v@).to_multiset() == models(orig).to_multiset(),
            forall|x: int, y: int|
                0 <= x < y < i && y < v@.len() ==> lex_leq(v@[x].path@, v@[y].path@),
        decreases v@.len() - i,
    {
        let mut j: usize = i;
        while j > 0
            invariant
                j <= i < v@.len(),
                v@.len() == orig.len(),
                models(v@).to_multiset() == models(orig).to_multiset(),
                forall|x: int, y: int|
                    0 <= x < y <= i && y != j ==> lex_leq(v@[x].path@, v@[y].path@),
                forall|y: int| j < y <= i ==> lex_leq(v@[j as int].path@, v@[y].path@),
            ensures
                j <= i < v@.len(),
                v@.len() == orig.len(),
                models(v@).to_multiset() == models(orig).to_multiset(),
                forall|x: int, y: int| 0 <= x < y <= i ==> lex_leq(v@[x].path@, v@[y].path@),
            decreases j,
        {
            let ghost w = v@;
            if path_leq(v[j - 1].path.as_str(), v[j].path.as_str()) {
                proof {
                    assert forall|x: int, y: int|
                        0 <= x < y <= i implies lex_leq(v@[x].path@, v@[y].path@) by {
                        if y == j {
                            if x < j - 1 {
                                assert(lex_leq(w[x].path@, w[j - 1].path@));
                                lemma_lex_transitive(w[x].path@, w[j - 1].path@, w[j as int].path@);
                            }
                        }
                    }
                }
                break ;
            }
            proof {
                lemma_lex_total(w[j - 1].path@, w[j as int].path@);
                assert(lex_leq(w[j as int].path@, w[j - 1].path@));
            }
            let moved = v.remove(j);
            v.insert(j - 1, moved);
            proof {
                let u = v@;
                assert(u =~= w.remove(j as int).insert(j - 1, w[j as int]));
                lemma_models_remove(w, j as int);
                lemma_models_insert(w.remove(j as int), j - 1, w[j as int]);
                assert(models(u) =~= models(w).remove(j as int).insert(
                    j - 1,
                    w[j as int].model(),
                ));
                lemma_swap_adjacent_multiset(models(w), j as int);
                assert(models(w)[j as int] == w[j as int].model());
                assert(models(u).to_multiset() == models(orig).to_multiset());
                // the array is unchanged but for the two swapped places
                assert(forall|k: int| 0 <= k < u.len() && k != j - 1 && k != j ==> u[k] == w[k]);
                assert(u[j - 1] == w[j as int]);
                assert(u[j as int] == w[j - 1]);
                assert forall|x: int, y: int|
                    0 <= x < y <= i && y != j - 1 implies lex_leq(u[x].path@, u[y].path@) by {
                    if y == j {
                        if x < j - 1 {
                            assert(lex_leq(w[x].path@, w[j - 1].path@));
                        } else if x == j - 1 {
                            assert(lex_leq(w[j as int].path@, w[j - 1].path@));
                        }
                    } else if y > j {
                        if x == j - 1 {
                            assert(lex_leq(w[j as int].path@, w[y].path@));
                        } else if x == j {
                            assert(lex_leq(w[j - 1].path@, w[y].path@));
                        }
                    }
                }
                let jm = j - 1;
                assert forall|y: int| jm < y <= i implies lex_leq(u[jm].path@, u[y].path@) by {
                    if y == j {
                        assert(lex_leq(w[j as int].path@, w[j - 1].path@));
                    } else {
                        assert(lex_leq(w[j as int].path@, w[y].path@));
                    }
                }
            }
            j = j - 1;
        }
        i = i + 1;
    }
    proof {
        if v@.len() == 0 {
            assert(models(v@) =~= models(orig));
        }
    }
    v
}

/// The fan-in point of one directory level. It knows how many results
/// are owed (one per dispatched task), accepts each arriving result at
/// most once per owed task, and aggregates once all have arrived.
pub struct Collector {
    /// How many results this level's dispatched tasks owe.
    pub expected: usize,
    /// The results that have arrived so far.
    pub received: Vec<ProbeResult>,
}

impl Collector {
    /// No collector ever holds more results than its tasks owe.
    pub open spec fn well_formed(self) -> bool {
        self.received@.len() <= self.expected
    }

    /// A collector owing one result per planned task of the level.
    pub fn for_tasks(tasks: &Vec<Task>) -> (c: Collector)
        ensures
            c.expected == tasks@.len(),
            c.received@.len() == 0,
            c.well_formed(),
    {
        Collector { expected: tasks.len(), received: Vec::new() }
    }

    /// Accept one task's result. A task that was never dispatched has
    /// no result to deliver: beyond the owed count nothing is accepted,
    /// so no result can ever be counted twice.
    pub fn deliver(&mut self, r: ProbeResult)
        requires
            old(self).well_formed(),
            old(self).received@.len() < old(self).expected,
        ensures
            final(self).expected == old(self).expected,
            final(self).received@ == old(self).received@.push(r),
            final(self).well_formed(),
    {
        self.received.push(r);
    }

    /// Whether every owed result has arrived.
    pub fn is_complete(&self) -> (b: bool)
        ensures
            b == (self.received@.len() == self.expected),
    {
        self.received.len() == self.expected
    }

    /// Aggregate the level once complete: results ordered by path, and
    /// the total as the sum of every received contribution — the same
    /// total whatever order they arrived in.
    pub fn finish(self) -> (out: (Vec<ProbeResult>, u64))
        requires
            self.well_formed(),
            self.received@.len() == self.expected,
        ensures
            out.0@.len() == self.received@.len(),
            models(out.0@).to_multiset() == models(self.received@).to_multiset(),
            sorted_by_path(models(out.0@)),
            out.1 as int == clamped_sum(models(self.received@)),
    {
        let ghost received = self.received@;
        let sorted = sort_by_path(self.received);
        let total = sum_durations(&sorted);
        proof {
            lemma_sum_order_independent(models(sorted@), models(received));
        }
        (sorted, total)
    }
}

/// The fan-in invariant of a whole level: a complete collector that
/// owes one result per planned task of a listing has received exactly
/// one result per recognized video file and per subdirectory — N + D
/// results for N video files and D subdirectories, never more, never
/// fewer.
pub proof fn lemma_fan_in_exact(c: Collector, entries: Seq<Entry>)
    requires
        c.well_formed(),
        c.expected as int == planned_tasks(entries).len(),
        c.received@.len() == c.expected,
    ensures
        c.received@.len() == count_video_files(entries) + count_subdirectories(entries),
{
    lemma_task_count(entries);
}

} // verus!
