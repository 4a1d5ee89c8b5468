//! Reliability metrics for the RELIABILITY page: per-routine success rate,
//! active pass/fail streak and flakiness (status-flip rate) over each routine's
//! most recent finished runs, ranked worst-first, plus the fleet summary.

use vstd::prelude::*;
use crate::order::{
    is_stable_sort_by, lemma_sorted_views, stable_sort, text_le, Pair, Rev, Text, TotalOrder,
};
use crate::text::{chars_of, concat, decimal, decimal_chars, owned, string_of};

verus! {

/// Most recent finished runs per routine considered for reliability metrics.
pub const SAMPLE_LEN: usize = 20;

/// Minimum finished-run sample before flakiness is judged.
pub const FLAKY_MIN_SAMPLE: usize = 5;

/// Outcome of one run.
#[derive(Debug, Clone, Copy, PartialEq, Eq, Structural)]
pub enum RunStatus {
    Success,
    Failed,
    Running,
    Unknown,
}

/// A run as listed fleet-wide, newest first.
#[derive(Debug, Clone, PartialEq)]
pub struct FleetRunSummary {
    pub routine_id: String,
    pub routine_title: String,
    pub workbench: String,
    pub started_at: u64,
    pub finished_at: Option<u64>,
    pub status: RunStatus,
    pub exit_code: Option<i32>,
}

/// A routine's most-recent-run streak: consecutive finished runs, newest first,
/// sharing the same outcome.
#[derive(Debug, Clone, Copy, PartialEq, Eq, Structural)]
pub enum Streak {
    /// `n` consecutive successes, most recent run first.
    Success(usize),
    /// `n` consecutive failures, most recent run first.
    Failure(usize),
    /// No finished run in the sample.
    NoRuns,
}

/// Reliability metrics for one routine, from its most recent finished runs.
#[derive(Debug, Clone, PartialEq)]
pub struct RoutineReliability {
    pub routine_id: String,
    pub routine_title: String,
    /// Finished runs considered, out of up to `SAMPLE_LEN`.
    pub sample_size: usize,
    /// `Success` runs within the sample.
    pub successes: usize,
    pub streak: Streak,
    /// Status changes between adjacent runs of the sample.
    pub flips: usize,
}

/// The mathematical content of a [`RoutineReliability`].
pub struct ReliabilityView {
    pub routine_id: Seq<char>,
    pub routine_title: Seq<char>,
    pub sample_size: nat,
    pub successes: nat,
    pub streak: Streak,
    pub flips: nat,
}

impl View for RoutineReliability {
    type V = ReliabilityView;

    open spec fn view(&self) -> ReliabilityView {
        ReliabilityView {
            routine_id: self.routine_id@,
            routine_title: self.routine_title@,
            sample_size: self.sample_size as nat,
            successes: self.successes as nat,
            streak: self.streak,
            flips: self.flips as nat,
        }
    }
}

/// Fleet-wide reliability summary.
#[derive(Debug, Clone, PartialEq)]
pub struct FleetReliability {
    pub sample_size: usize,
    pub successes: usize,
    /// Routines with an active failure streak.
    pub failing_count: usize,
    pub flaky_count: usize,
}

// ─── Specification ──────────────────────────────────────────────────────────

/// Finished runs (success or failure) are the ones that say something about reliability.
pub open spec fn is_finished(s: RunStatus) -> bool {
    s is Success || s is Failed
}

/// Routine ids with a finished run in `runs`, in order of their first finished run.
pub open spec fn bucket_ids(runs: Seq<FleetRunSummary>) -> Seq<Seq<char>>
    decreases runs.len(),
{
    if runs.len() == 0 {
        seq![]
    } else {
        let prev = bucket_ids(runs.drop_last());
        let r = runs.last();
        if is_finished(r.status) && !prev.contains(r.routine_id@) {
            prev.push(r.routine_id@)
        } else {
            prev
        }
    }
}

/// The first `SAMPLE_LEN` finished statuses of routine `id` in `runs`, in list order.
pub open spec fn bucket_statuses(runs: Seq<FleetRunSummary>, id: Seq<char>) -> Seq<RunStatus>
    decreases runs.len(),
{
    if runs.len() == 0 {
        seq![]
    } else {
        let prev = bucket_statuses(runs.drop_last(), id);
        let r = runs.last();
        if is_finished(r.status) && r.routine_id@ == id && prev.len() < SAMPLE_LEN {
            prev.push(r.status)
        } else {
            prev
        }
    }
}

/// The title carried by the first finished run of routine `id` in `runs`.
pub open spec fn bucket_title(runs: Seq<FleetRunSummary>, id: Seq<char>) -> Seq<char>
    decreases runs.len(),
{
    if runs.len() == 0 {
        seq![]
    } else {
        let prev = runs.drop_last();
        let r = runs.last();
        if is_finished(r.status) && r.routine_id@ == id && !bucket_ids(prev).contains(id) {
            r.routine_title@
        } else {
            bucket_title(prev, id)
        }
    }
}

/// Number of leading elements of `s` equal to `x`.
pub open spec fn lead_run(s: Seq<RunStatus>, x: RunStatus) -> nat
    decreases s.len(),
{
    if s.len() > 0 && s[0] == x {
        1 + lead_run(s.drop_first(), x)
    } else {
        0
    }
}

/// The streak at the head of a newest-first sample.
pub open spec fn streak_of(s: Seq<RunStatus>) -> Streak {
    if s.len() == 0 {
        Streak::NoRuns
    } else if s[0] == RunStatus::Success {
        Streak::Success(lead_run(s, s[0]) as usize)
    } else {
        Streak::Failure(lead_run(s, s[0]) as usize)
    }
}

/// Number of adjacent pairs of `s` with different statuses.
pub open spec fn flips_of(s: Seq<RunStatus>) -> nat
    decreases s.len(),
{
    if s.len() < 2 {
        0
    } else {
        flips_of(s.drop_last()) + if s[s.len() - 2] != s[s.len() - 1] {
            1nat
        } else {
            0nat
        }
    }
}

/// Number of successes in `s`.
pub open spec fn successes_of(s: Seq<RunStatus>) -> nat
    decreases s.len(),
{
    if s.len() == 0 {
        0
    } else {
        successes_of(s.drop_last()) + if s.last() == RunStatus::Success {
            1nat
        } else {
            0nat
        }
    }
}

/// Length of an active failure streak, 0 otherwise.
pub open spec fn failure_len(s: Streak) -> nat {
    match s {
        Streak::Failure(n) => n as nat,
        _ => 0,
    }
}

/// The metrics of one routine's sample.
pub open spec fn reliability_of(id: Seq<char>, title: Seq<char>, s: Seq<RunStatus>) -> ReliabilityView {
    ReliabilityView {
        routine_id: id,
        routine_title: title,
        sample_size: s.len(),
        successes: successes_of(s),
        streak: streak_of(s),
        flips: flips_of(s),
    }
}

/// Every routine with a finished run, in order of its first finished run.
pub open spec fn bucketed(runs: Seq<FleetRunSummary>) -> Seq<ReliabilityView> {
    bucket_ids(runs).map_values(
        |id: Seq<char>| reliability_of(id, bucket_title(runs, id), bucket_statuses(runs, id)),
    )
}

/// Success rate `successes / sample_size` as a fraction, an empty sample counting as 1.
pub open spec fn rate_num(v: ReliabilityView) -> int {
    if v.sample_size == 0 { 1 } else { v.successes as int }
}

pub open spec fn rate_den(v: ReliabilityView) -> int {
    if v.sample_size == 0 { 1 } else { v.sample_size as int }
}

/// `a`'s success rate is at most `b`'s.
pub open spec fn rate_le(a: ReliabilityView, b: ReliabilityView) -> bool {
    rate_num(a) * rate_den(b) <= rate_num(b) * rate_den(a)
}

/// Worst-first ranking: a longer active failure streak first, then a lower success
/// rate, then the title.
pub open spec fn reliability_le(a: ReliabilityView, b: ReliabilityView) -> bool {
    let fa = failure_len(a.streak);
    let fb = failure_len(b.streak);
    ||| fa > fb
    ||| fa == fb && rate_le(a, b) && !rate_le(b, a)
    ||| fa == fb && rate_le(a, b) && rate_le(b, a) && text_le(a.routine_title, b.routine_title)
}

/// Flakiness: a sample of at least `FLAKY_MIN_SAMPLE` runs whose flips make up at
/// least 40% of its adjacent pairs.
pub open spec fn flaky(sample_size: nat, flips: nat) -> bool {
    sample_size >= FLAKY_MIN_SAMPLE && 5 * flips >= 2 * (sample_size - 1)
}

// ─── Rate key ───────────────────────────────────────────────────────────────

/// A success rate `num / den`, compared by cross-multiplication (`den > 0`).
pub struct RateKey {
    pub num: u64,
    pub den: u64,
}

proof fn lemma_rate_trans(a1: int, b1: int, a2: int, b2: int, a3: int, b3: int)
    by (nonlinear_arith)
    requires
        b1 > 0,
        b2 > 0,
        b3 > 0,
        a1 * b2 <= a2 * b1,
        a2 * b3 <= a3 * b2,
    ensures
        a1 * b3 <= a3 * b1,
{
    assert(a1 * b2 * b3 <= a2 * b1 * b3);
    assert(a2 * b3 * b1 <= a3 * b2 * b1);
    assert(a1 * b3 * b2 <= a3 * b1 * b2);
}

impl TotalOrder for RateKey {
    open spec fn key_le(self, other: Self) -> bool {
        self.num * (if other.den == 0 { 1 } else { other.den as int }) <= other.num * (if self.den
            == 0 {
            1
        } else {
            self.den as int
        })
    }

    proof fn lemma_refl(x: Self) {
    }

    proof fn lemma_trans(x: Self, y: Self, z: Self) {
        let bx: int = if x.den == 0 { 1 } else { x.den as int };
        let by: int = if y.den == 0 { 1 } else { y.den as int };
        let bz: int = if z.den == 0 { 1 } else { z.den as int };
        lemma_rate_trans(x.num as int, bx, y.num as int, by, z.num as int, bz);
    }

    proof fn lemma_total(x: Self, y: Self) {
    }

    fn key_leq(&self, other: &Self) -> (r: bool) {
        let a: u128 = self.num as u128;
        let b: u128 = if other.den == 0 { 1 } else { other.den as u128 };
        let c: u128 = other.num as u128;
        let d: u128 = if self.den == 0 { 1 } else { self.den as u128 };
        proof {
            vstd::arithmetic::mul::lemma_mul_upper_bound(a as int, u64::MAX as int, b as int, u64::MAX as int);
            vstd::arithmetic::mul::lemma_mul_upper_bound(c as int, u64::MAX as int, d as int, u64::MAX as int);
        }
        a * b <= c * d
    }
}

// ─── Per-sample metrics ─────────────────────────────────────────────────────

/// The active streak at the head of a newest-first finished-run sample.
pub fn compute_streak(statuses: &[RunStatus]) -> (r: Streak)
    ensures
        r == streak_of(statuses@),
{
    if statuses.len() == 0 {
        return Streak::NoRuns;
    }
    let newest = statuses[0];
    let mut n: usize = 0;
    proof {
        assert(statuses@.skip(0) =~= statuses@);
    }
    while n < statuses.len() && statuses[n] == newest
        invariant
            n <= statuses@.len(),
            statuses@.len() > 0,
            newest == statuses@[0],
            lead_run(statuses@, newest) == n + lead_run(statuses@.skip(n as int), newest),
        decreases statuses@.len() - n,
    {
        proof {
            let t = statuses@.skip(n as int);
            assert(t[0] == statuses@[n as int]);
            assert(t.drop_first() =~= statuses@.skip(n + 1));
        }
        n = n + 1;
    }
    proof {
        let t = statuses@.skip(n as int);
        if n < statuses@.len() {
            assert(t[0] == statuses@[n as int]);
        }
        assert(lead_run(t, newest) == 0);
    }
    if newest == RunStatus::Success {
        Streak::Success(n)
    } else {
        Streak::Failure(n)
    }
}

/// Number of adjacent-pair status changes in a sample.
pub fn count_flips(statuses: &[RunStatus]) -> (r: usize)
    ensures
        r == flips_of(statuses@),
{
    let mut count: usize = 0;
    let mut i: usize = 1;
    if statuses.len() < 2 {
        return 0;
    }
    while i < statuses.len()
        invariant
            1 <= i <= statuses@.len(),
            count <= i,
            count == flips_of(statuses@.take(i as int)),
        decreases statuses@.len() - i,
    {
        proof {
            let t = statuses@.take(i + 1);
            assert(t.drop_last() =~= statuses@.take(i as int));
            assert(t[t.len() - 2] == statuses@[i - 1]);
            assert(t[t.len() - 1] == statuses@[i as int]);
        }
        if statuses[i - 1] != statuses[i] {
            count = count + 1;
        }
        i = i + 1;
    }
    proof {
        assert(statuses@.take(statuses@.len() as int) =~= statuses@);
    }
    count
}

/// Number of successes in a sample.
fn count_successes(statuses: &[RunStatus]) -> (r: usize)
    ensures
        r == successes_of(statuses@),
{
    let mut count: usize = 0;
    let mut i: usize = 0;
    while i < statuses.len()
        invariant
            i <= statuses@.len(),
            count <= i,
            count == successes_of(statuses@.take(i as int)),
        decreases statuses@.len() - i,
    {
        proof {
            let t = statuses@.take(i + 1);
            assert(t.drop_last() =~= statuses@.take(i as int));
        }
        if statuses[i] == RunStatus::Success {
            count = count + 1;
        }
        i = i + 1;
    }
    proof {
        assert(statuses@.take(statuses@.len() as int) =~= statuses@);
    }
    count
}

/// Length of an active failure streak, or 0 for a success streak or no sample.
pub fn failure_streak_len(streak: Streak) -> (r: usize)
    ensures
        r == failure_len(streak),
{
    match streak {
        Streak::Failure(n) => n,
        Streak::Success(_) | Streak::NoRuns => 0,
    }
}

impl RoutineReliability {
    /// Whether this routine's flip rate crosses the flaky threshold: at least
    /// `FLAKY_MIN_SAMPLE` runs, flips at least 40% of its adjacent pairs.
    pub fn is_flaky(&self) -> (r: bool)
        ensures
            r == flaky(self.sample_size as nat, self.flips as nat),
    {
        if self.sample_size < FLAKY_MIN_SAMPLE {
            return false;
        }
        let pairs = self.sample_size - 1;
        (self.flips as u128) * 5 >= (pairs as u128) * 2
    }
}

// ─── Bucketing and ranking ──────────────────────────────────────────────────

/// One routine's sample of finished runs: its id, the title its first finished run
/// carries, and up to [`SAMPLE_LEN`] statuses, newest first.
pub struct RoutineAcc {
    pub id: String,
    pub title: String,
    pub statuses: Vec<RunStatus>,
}

proof fn lemma_absent_id_empty(runs: Seq<FleetRunSummary>, id: Seq<char>)
    requires
        !bucket_ids(runs).contains(id),
    ensures
        bucket_statuses(runs, id) == Seq::<RunStatus>::empty(),
    decreases runs.len(),
{
    if runs.len() > 0 {
        let prev = runs.drop_last();
        if bucket_ids(prev).contains(id) {
            let k = choose|k: int| 0 <= k < bucket_ids(prev).len() && bucket_ids(prev)[k] == id;
            assert(bucket_ids(runs)[k] == id);
        }
        let r = runs.last();
        if is_finished(r.status) && r.routine_id@ == id {
            let q = bucket_ids(runs);
            assert(q[q.len() - 1] == id);
        }
        lemma_absent_id_empty(prev, id);
    }
}

/// Each routine with a finished run is listed once.
pub proof fn lemma_bucket_ids_distinct(runs: Seq<FleetRunSummary>)
    ensures
        forall|a: int, b: int|
            0 <= a < bucket_ids(runs).len() && 0 <= b < bucket_ids(runs).len() && a != b
                ==> bucket_ids(runs)[a] != bucket_ids(runs)[b],
    decreases runs.len(),
{
    if runs.len() > 0 {
        let prev = runs.drop_last();
        lemma_bucket_ids_distinct(prev);
        let p = bucket_ids(prev);
        let q = bucket_ids(runs);
        if q.len() > p.len() {
            assert forall|a: int, b: int| 0 <= a < q.len() && 0 <= b < q.len() && a != b implies q[a] != q[b] by {
                if a == p.len() {
                    assert(!p.contains(q[a]));
                    assert(q[b] == p[b]);
                } else if b == p.len() {
                    assert(!p.contains(q[b]));
                    assert(q[a] == p[a]);
                }
            }
        }
    }
}

/// Per-routine samples of the finished runs in `runs`, in order of each routine's first
/// finished run: id, title and up to `SAMPLE_LEN` statuses, newest first.
pub fn bucket_finished_runs(runs: &[FleetRunSummary]) -> (r: Vec<RoutineAcc>)
    ensures
        r@.len() == bucket_ids(runs@).len(),
        forall|k: int|
            0 <= k < r@.len() ==> {
                &&& (#[trigger] r@[k]).id@ == bucket_ids(runs@)[k]
                &&& r@[k].title@ == bucket_title(runs@, r@[k].id@)
                &&& r@[k].statuses@ == bucket_statuses(runs@, r@[k].id@)
            },
{
    let mut accs: Vec<RoutineAcc> = Vec::new();
    let mut i: usize = 0;
    while i < runs.len()
        invariant
            i <= runs@.len(),
            accs@.len() == bucket_ids(runs@.take(i as int)).len(),
            forall|k: int|
                0 <= k < accs@.len() ==> {
                    &&& (#[trigger] accs@[k]).id@ == bucket_ids(runs@.take(i as int))[k]
                    &&& accs@[k].title@ == bucket_title(runs@.take(i as int), accs@[k].id@)
                    &&& accs@[k].statuses@ == bucket_statuses(runs@.take(i as int), accs@[k].id@)
                },
        decreases runs@.len() - i,
    {
        let ghost pre = runs@.take(i as int);
        let ghost post = runs@.take(i + 1);
        proof {
            assert(post.drop_last() =~= pre);
            assert(post.last() == runs@[i as int]);
        }
        let run = &runs[i];
        if run.status == RunStatus::Success || run.status == RunStatus::Failed {
            let mut k: usize = 0;
            while k < accs.len() && !(accs[k].id == run.routine_id)
                invariant
                    k <= accs@.len(),
                    forall|j: int| 0 <= j < k ==> (#[trigger] accs@[j]).id@ != run.routine_id@,
                decreases accs@.len() - k,
            {
                k = k + 1;
            }
            let found = k < accs.len();
            if found {
                proof {
                    assert(bucket_ids(pre)[k as int] == run.routine_id@);
                    assert(bucket_ids(pre).contains(run.routine_id@));
                    assert(bucket_ids(post) == bucket_ids(pre));
                }
                let ghost old_accs = accs@;
                let mut acc = accs.remove(k);
                if acc.statuses.len() < SAMPLE_LEN {
                    acc.statuses.push(run.status);
                }
                accs.insert(k, acc);
                proof {
                    assert forall|j: int| 0 <= j < accs@.len() implies {
                        &&& (#[trigger] accs@[j]).id@ == bucket_ids(post)[j]
                        &&& accs@[j].title@ == bucket_title(post, accs@[j].id@)
                        &&& accs@[j].statuses@ == bucket_statuses(post, accs@[j].id@)
                    } by {
                        if j == k {
                        } else {
                            assert(accs@[j] == old_accs[j]);
                            lemma_bucket_ids_distinct(pre);
                        }
                    }
                }
            } else {
                proof {
                    assert(!bucket_ids(pre).contains(run.routine_id@)) by {
                        if bucket_ids(pre).contains(run.routine_id@) {
                            let j = choose|j: int| 0 <= j < bucket_ids(pre).len() && bucket_ids(pre)[j] == run.routine_id@;
                            assert(accs@[j].id@ == run.routine_id@);
                        }
                    }
                    lemma_absent_id_empty(pre, run.routine_id@);
                }
                let mut statuses: Vec<RunStatus> = Vec::new();
                statuses.push(run.status);
                let ghost old_accs = accs@;
                accs.push(RoutineAcc {
                    id: run.routine_id.clone(),
                    title: run.routine_title.clone(),
                    statuses,
                });
                proof {
                    assert forall|j: int| 0 <= j < accs@.len() implies {
                        &&& (#[trigger] accs@[j]).id@ == bucket_ids(post)[j]
                        &&& accs@[j].title@ == bucket_title(post, accs@[j].id@)
                        &&& accs@[j].statuses@ == bucket_statuses(post, accs@[j].id@)
                    } by {
                        if j < old_accs.len() {
                            assert(accs@[j] == old_accs[j]);
                            assert(accs@[j].id@ != run.routine_id@);
                        } else {
                            assert(accs@[j].statuses@ =~= seq![run.status]);
                        }
                    }
                }
            }
        } else {
            proof {
                assert(bucket_ids(post) == bucket_ids(pre));
                assert forall|j: int| 0 <= j < accs@.len() implies {
                    &&& (#[trigger] accs@[j]).id@ == bucket_ids(post)[j]
                    &&& accs@[j].title@ == bucket_title(post, accs@[j].id@)
                    &&& accs@[j].statuses@ == bucket_statuses(post, accs@[j].id@)
                } by {
                }
            }
        }
        i = i + 1;
    }
    proof {
        assert(runs@.take(runs@.len() as int) =~= runs@);
    }
    accs
}

/// The ranking key of one routine: active failure streak (longest first), success rate
/// (lowest first), title.
type RankKey = Pair<Rev<u64>, Pair<RateKey, Text>>;

spec fn key_matches(k: RankKey, v: ReliabilityView) -> bool {
    &&& k.first.inner == failure_len(v.streak)
    &&& k.second.first.num == rate_num(v)
    &&& k.second.first.den == rate_den(v)
    &&& k.second.second.chars@ == v.routine_title
}

proof fn lemma_keys_agree(k1: RankKey, v1: ReliabilityView, k2: RankKey, v2: ReliabilityView)
    requires
        key_matches(k1, v1),
        key_matches(k2, v2),
    ensures
        k1.key_le(k2) == reliability_le(v1, v2),
{
}

/// Every routine's reliability metrics from a fleet-wide, newest-first run list, ranked
/// worst-first: an active failure streak first (longer first), then lower success rate,
/// then title; routines that tie keep the order of their first finished run. Routines
/// with no finished run are omitted.
pub fn compute_reliability(runs: &[FleetRunSummary]) -> (r: Vec<RoutineReliability>)
    ensures
        is_stable_sort_by(
            r@.map_values(|x: RoutineReliability| x@),
            bucketed(runs@),
            |a: ReliabilityView, b: ReliabilityView| reliability_le(a, b),
        ),
{
    let accs = bucket_finished_runs(runs);
    let mut items: Vec<RoutineReliability> = Vec::new();
    let mut keys: Vec<RankKey> = Vec::new();
    let mut i: usize = 0;
    while i < accs.len()
        invariant
            i <= accs@.len(),
            accs@.len() == bucket_ids(runs@).len(),
            forall|k: int|
                0 <= k < accs@.len() ==> {
                    &&& (#[trigger] accs@[k]).id@ == bucket_ids(runs@)[k]
                    &&& accs@[k].title@ == bucket_title(runs@, accs@[k].id@)
                    &&& accs@[k].statuses@ == bucket_statuses(runs@, accs@[k].id@)
                },
            items@.len() == i,
            keys@.len() == i,
            forall|k: int| 0 <= k < i ==> (#[trigger] items@[k])@ == bucketed(runs@)[k],
            forall|k: int| 0 <= k < i ==> key_matches(#[trigger] keys@[k], items@[k]@),
        decreases accs@.len() - i,
    {
        let acc = &accs[i];
        let sample_size = acc.statuses.len();
        let successes = count_successes(acc.statuses.as_slice());
        let streak = compute_streak(acc.statuses.as_slice());
        let flips = count_flips(acc.statuses.as_slice());
        let item = RoutineReliability {
            routine_id: acc.id.clone(),
            routine_title: acc.title.clone(),
            sample_size,
            successes,
            streak,
            flips,
        };
        let (num, den) = if sample_size == 0 {
            (1u64, 1u64)
        } else {
            (successes as u64, sample_size as u64)
        };
        let key: RankKey = Pair {
            first: Rev { inner: failure_streak_len(streak) as u64 },
            second: Pair { first: RateKey { num, den }, second: Text { chars: chars_of(acc.title.as_str()) } },
        };
        proof {
            assert(item@ == bucketed(runs@)[i as int]);
            assert(key_matches(key, item@));
        }
        items.push(item);
        keys.push(key);
        i = i + 1;
    }
    let ghost inp = items@;
    let ghost ks = keys@;
    proof {
        assert(inp.map_values(|x: RoutineReliability| x@) =~= bucketed(runs@));
    }
    let perm = stable_sort(&mut items, &mut keys);
    proof {
        let le = |a: ReliabilityView, b: ReliabilityView| reliability_le(a, b);
        assert forall|a: int, b: int| 0 <= a < inp.len() && 0 <= b < inp.len() implies (#[trigger] ks[a]).key_le(
            #[trigger] ks[b],
        ) == le(inp[a]@, inp[b]@) by {
            lemma_keys_agree(ks[a], inp[a]@, ks[b], inp[b]@);
        }
        lemma_sorted_views(items@, inp, ks, perm@, le);
    }
    items
}

/// Sum of the sample sizes of `items`.
pub open spec fn total_samples(items: Seq<ReliabilityView>) -> nat
    decreases items.len(),
{
    if items.len() == 0 {
        0
    } else {
        total_samples(items.drop_last()) + items.last().sample_size
    }
}

/// Sum of the successes of `items`.
pub open spec fn total_successes(items: Seq<ReliabilityView>) -> nat
    decreases items.len(),
{
    if items.len() == 0 {
        0
    } else {
        total_successes(items.drop_last()) + items.last().successes
    }
}

/// Number of `items` with an active failure streak.
pub open spec fn failing_routines(items: Seq<ReliabilityView>) -> nat
    decreases items.len(),
{
    if items.len() == 0 {
        0
    } else {
        failing_routines(items.drop_last()) + if failure_len(items.last().streak) > 0 {
            1nat
        } else {
            0nat
        }
    }
}

/// Number of flaky `items`.
pub open spec fn flaky_routines(items: Seq<ReliabilityView>) -> nat
    decreases items.len(),
{
    if items.len() == 0 {
        0
    } else {
        flaky_routines(items.drop_last()) + if flaky(items.last().sample_size, items.last().flips) {
            1nat
        } else {
            0nat
        }
    }
}

proof fn lemma_counts_bounded(items: Seq<ReliabilityView>)
    ensures
        failing_routines(items) <= items.len(),
        flaky_routines(items) <= items.len(),
    decreases items.len(),
{
    if items.len() > 0 {
        lemma_counts_bounded(items.drop_last());
    }
}

proof fn lemma_totals_monotone(items: Seq<ReliabilityView>, i: int)
    requires
        0 <= i <= items.len(),
    ensures
        total_samples(items.take(i)) <= total_samples(items),
        total_successes(items.take(i)) <= total_successes(items),
    decreases items.len() - i,
{
    if i < items.len() {
        lemma_totals_monotone(items, i + 1);
        assert(items.take(i + 1).drop_last() =~= items.take(i));
    } else {
        assert(items.take(i) =~= items);
    }
}

/// Aggregates per-routine metrics into the fleet-wide summary. The totals must fit a `usize`.
pub fn fleet_summary(items: &[RoutineReliability]) -> (r: FleetReliability)
    requires
        total_samples(items@.map_values(|x: RoutineReliability| x@)) <= usize::MAX,
        total_successes(items@.map_values(|x: RoutineReliability| x@)) <= usize::MAX,
    ensures
        r.sample_size == total_samples(items@.map_values(|x: RoutineReliability| x@)),
        r.successes == total_successes(items@.map_values(|x: RoutineReliability| x@)),
        r.failing_count == failing_routines(items@.map_values(|x: RoutineReliability| x@)),
        r.flaky_count == flaky_routines(items@.map_values(|x: RoutineReliability| x@)),
{
    let ghost views = items@.map_values(|x: RoutineReliability| x@);
    let mut acc = FleetReliability { sample_size: 0, successes: 0, failing_count: 0, flaky_count: 0 };
    let mut i: usize = 0;
    while i < items.len()
        invariant
            i <= items@.len(),
            views == items@.map_values(|x: RoutineReliability| x@),
            total_samples(views) <= usize::MAX,
            total_successes(views) <= usize::MAX,
            acc.sample_size == total_samples(views.take(i as int)),
            acc.successes == total_successes(views.take(i as int)),
            acc.failing_count == failing_routines(views.take(i as int)),
            acc.flaky_count == flaky_routines(views.take(i as int)),
            acc.failing_count <= i,
            acc.flaky_count <= i,
        decreases items@.len() - i,
    {
        proof {
            let t = views.take(i + 1);
            assert(t.drop_last() =~= views.take(i as int));
            assert(t.last() == items@[i as int]@);
            lemma_totals_monotone(views, i + 1);
            lemma_counts_bounded(views.take(i as int));
        }
        let item = &items[i];
        acc.sample_size = acc.sample_size + item.sample_size;
        acc.successes = acc.successes + item.successes;
        if failure_streak_len(item.streak) > 0 {
            acc.failing_count = acc.failing_count + 1;
        }
        if item.is_flaky() {
            acc.flaky_count = acc.flaky_count + 1;
        }
        i = i + 1;
    }
    proof {
        assert(views.take(items@.len() as int) =~= views);
    }
    acc
}

/// CSS class for a routine's streak badge.
pub fn streak_class(streak: Streak) -> (r: &'static str)
    ensures
        r@ == match streak {
            Streak::Success(_) => "run-status success"@,
            Streak::Failure(_) => "run-status failed"@,
            Streak::NoRuns => "run-status unknown"@,
        },
{
    match streak {
        Streak::Success(_) => "run-status success",
        Streak::Failure(_) => "run-status failed",
        Streak::NoRuns => "run-status unknown",
    }
}

/// The streak badge text: "N OK", "N FAILING", or a dash.
pub open spec fn streak_text(streak: Streak) -> Seq<char> {
    match streak {
        Streak::Success(n) => decimal(n as nat) + " OK"@,
        Streak::Failure(n) => decimal(n as nat) + " FAILING"@,
        Streak::NoRuns => "—"@,
    }
}

/// Display label for a routine's streak badge.
pub fn streak_label(streak: Streak) -> (r: String)
    ensures
        r@ == streak_text(streak),
{
    match streak {
        Streak::Success(n) => {
            let d = decimal_chars(n as u64);
            let s = chars_of(" OK");
            string_of(concat(d.as_slice(), s.as_slice()).as_slice())
        },
        Streak::Failure(n) => {
            let d = decimal_chars(n as u64);
            let s = chars_of(" FAILING");
            string_of(concat(d.as_slice(), s.as_slice()).as_slice())
        },
        Streak::NoRuns => owned("—"),
    }
}

// ─── Laws ───────────────────────────────────────────────────────────────────

/// A routine's sample holds at most [`SAMPLE_LEN`] runs, all of them finished.
pub proof fn lemma_sample_bounded(runs: Seq<FleetRunSummary>, id: Seq<char>)
    ensures
        bucket_statuses(runs, id).len() <= SAMPLE_LEN,
        forall|i: int| 0 <= i < bucket_statuses(runs, id).len() ==> is_finished(#[trigger] bucket_statuses(runs, id)[i]),
    decreases runs.len(),
{
    if runs.len() > 0 {
        lemma_sample_bounded(runs.drop_last(), id);
        let prev = bucket_statuses(runs.drop_last(), id);
        assert forall|i: int| 0 <= i < bucket_statuses(runs, id).len() implies is_finished(
            #[trigger] bucket_statuses(runs, id)[i],
        ) by {
            if i < prev.len() {
                assert(bucket_statuses(runs, id)[i] == prev[i]);
            }
        }
    }
}

/// The counts of a sample stay within it: successes at most its size, flips fewer than
/// its size (when it is not empty), and the head streak between one and its size.
pub proof fn lemma_sample_metrics_bounded(s: Seq<RunStatus>)
    ensures
        successes_of(s) <= s.len(),
        s.len() > 0 ==> flips_of(s) < s.len(),
        s.len() > 0 ==> 1 <= lead_run(s, s[0]) <= s.len(),
    decreases s.len(),
{
    if s.len() > 0 {
        lemma_sample_metrics_bounded(s.drop_last());
        lemma_lead_run_bounded(s, s[0]);
    }
}

proof fn lemma_lead_run_bounded(s: Seq<RunStatus>, x: RunStatus)
    ensures
        lead_run(s, x) <= s.len(),
        s.len() > 0 && s[0] == x ==> lead_run(s, x) >= 1,
    decreases s.len(),
{
    if s.len() > 0 && s[0] == x {
        lemma_lead_run_bounded(s.drop_first(), x);
    }
}

/// A sample smaller than [`FLAKY_MIN_SAMPLE`] is never flaky, however often it flips.
pub proof fn lemma_small_sample_not_flaky(sample_size: nat, flips: nat)
    requires
        sample_size < FLAKY_MIN_SAMPLE,
    ensures
        !flaky(sample_size, flips),
{
}

/// A sample whose runs all ended the same way has no flips.
pub proof fn lemma_uniform_sample_no_flips(s: Seq<RunStatus>)
    requires
        forall|i: int, j: int| 0 <= i < s.len() && 0 <= j < s.len() ==> s[i] == s[j],
    ensures
        flips_of(s) == 0,
    decreases s.len(),
{
    if s.len() >= 2 {
        let init = s.drop_last();
        assert forall|i: int, j: int| 0 <= i < init.len() && 0 <= j < init.len() implies init[i] == init[j] by {
            assert(init[i] == s[i] && init[j] == s[j]);
        }
        lemma_uniform_sample_no_flips(init);
        assert(s[s.len() - 2] == s[s.len() - 1]);
    }
}

/// Counting flips from the oldest end: the first pair, then the flips of the rest.
proof fn lemma_flips_front(s: Seq<RunStatus>)
    requires
        s.len() >= 2,
    ensures
        flips_of(s) == flips_of(s.drop_first()) + if s[0] != s[1] { 1nat } else { 0nat },
    decreases s.len(),
{
    if s.len() > 2 {
        let init = s.drop_last();
        lemma_flips_front(init);
        assert(init.drop_first() =~= s.drop_first().drop_last());
        assert(s.drop_first()[s.drop_first().len() - 2] == s[s.len() - 2]);
        assert(s.drop_first()[s.drop_first().len() - 1] == s[s.len() - 1]);
        assert(init[0] == s[0] && init[1] == s[1]);
        assert(flips_of(s.drop_first()) == flips_of(s.drop_first().drop_last()) + if s[s.len() - 2] != s[s.len()
            - 1] {
            1nat
        } else {
            0nat
        });
    } else {
        assert(s.drop_first().len() == 1);
        assert(flips_of(s.drop_last()) == 0);
        assert(flips_of(s.drop_first()) == 0);
    }
}

/// Reading a sample in the other order counts the same flips.
pub proof fn lemma_flips_reversed(s: Seq<RunStatus>)
    ensures
        flips_of(s.reverse()) == flips_of(s),
    decreases s.len(),
{
    let r = s.reverse();
    if s.len() >= 2 {
        let rest = s.drop_first();
        lemma_flips_reversed(rest);
        assert(r.drop_last() =~= rest.reverse());
        assert(r[r.len() - 2] == s[1]);
        assert(r[r.len() - 1] == s[0]);
        lemma_flips_front(s);
    } else if s.len() == 1 {
        assert(r.len() == 1);
    } else {
        assert(r.len() == 0);
    }
}

impl Default for FleetReliability {
    /// The summary of no routines: every count zero.
    fn default() -> (r: Self)
        ensures
            r.sample_size == 0 && r.successes == 0 && r.failing_count == 0 && r.flaky_count == 0,
    {
        FleetReliability { sample_size: 0, successes: 0, failing_count: 0, flaky_count: 0 }
    }
}

/// The fleet totals of no routines are zero, and the totals of two lists of routines put
/// together are the sums of their totals.
pub proof fn lemma_fleet_totals_add(a: Seq<ReliabilityView>, b: Seq<ReliabilityView>)
    ensures
        total_samples(Seq::<ReliabilityView>::empty()) == 0,
        total_successes(Seq::<ReliabilityView>::empty()) == 0,
        failing_routines(Seq::<ReliabilityView>::empty()) == 0,
        flaky_routines(Seq::<ReliabilityView>::empty()) == 0,
        total_samples(a + b) == total_samples(a) + total_samples(b),
        total_successes(a + b) == total_successes(a) + total_successes(b),
        failing_routines(a + b) == failing_routines(a) + failing_routines(b),
        flaky_routines(a + b) == flaky_routines(a) + flaky_routines(b),
    decreases b.len(),
{
    if b.len() == 0 {
        assert(a + b =~= a);
    } else {
        lemma_fleet_totals_add(a, b.drop_last());
        assert((a + b).drop_last() =~= a + b.drop_last());
        assert((a + b).last() == b.last());
    }
}

/// A routine has a sample exactly when it has a finished run.
pub proof fn lemma_bucket_ids_are_finished(runs: Seq<FleetRunSummary>, id: Seq<char>)
    ensures
        bucket_ids(runs).contains(id) <==> exists|i: int|
            0 <= i < runs.len() && is_finished((#[trigger] runs[i]).status) && runs[i].routine_id@ == id,
    decreases runs.len(),
{
    if runs.len() > 0 {
        let prev = runs.drop_last();
        lemma_bucket_ids_are_finished(prev, id);
        let p = bucket_ids(prev);
        let q = bucket_ids(runs);
        let r = runs.last();
        if p.contains(id) {
            let k = choose|k: int| 0 <= k < p.len() && p[k] == id;
            assert(q[k] == id);
            let i = choose|i: int| 0 <= i < prev.len() && is_finished((#[trigger] prev[i]).status) && prev[i].routine_id@ == id;
            assert(runs[i] == prev[i]);
        }
        if is_finished(r.status) && r.routine_id@ == id {
            assert(runs[runs.len() - 1] == r);
            if !p.contains(id) {
                assert(q[q.len() - 1] == id);
            }
        }
        if q.contains(id) && !p.contains(id) {
            let k = choose|k: int| 0 <= k < q.len() && q[k] == id;
            if q.len() == p.len() {
                assert(q == p);
            }
            assert(runs[runs.len() - 1] == r);
        }
        if exists|i: int| 0 <= i < runs.len() && is_finished((#[trigger] runs[i]).status) && runs[i].routine_id@ == id {
            let i = choose|i: int| 0 <= i < runs.len() && is_finished((#[trigger] runs[i]).status) && runs[i].routine_id@ == id;
            if i < prev.len() {
                assert(prev[i] == runs[i]);
            }
        }
    }
}

/// The fleet's flaky count is the number of routines with at least [`FLAKY_MIN_SAMPLE`]
/// finished runs whose status changed on at least two in five adjacent pairs; a single
/// routine counts exactly when that holds of it.
pub proof fn lemma_flaky_count_counts_flaky_routines(items: Seq<ReliabilityView>, v: ReliabilityView)
    ensures
        flaky_routines(items) == items.filter(
            |x: ReliabilityView| x.sample_size >= FLAKY_MIN_SAMPLE && 5 * x.flips >= 2 * (x.sample_size - 1),
        ).len(),
        flaky_routines(seq![v]) == (if v.sample_size >= FLAKY_MIN_SAMPLE && 5 * v.flips >= 2 * (v.sample_size - 1) {
            1nat
        } else {
            0nat
        }),
    decreases items.len(),
{
    reveal(Seq::filter);
    if items.len() > 0 {
        lemma_flaky_count_counts_flaky_routines(items.drop_last(), v);
    }
    let one = seq![v];
    assert(one.drop_last() =~= Seq::<ReliabilityView>::empty());
    assert(flaky_routines(one.drop_last()) == 0);
    assert(one.last() == v);
    assert(flaky_routines(one) == flaky_routines(one.drop_last()) + if flaky(v.sample_size, v.flips) {
        1nat
    } else {
        0nat
    });
}

} // verus!




