//! The cron-jobs page: the job record, its faceted filter, column sort,
//! group-by, distinct-value lists and the page reducer.

use vstd::prelude::*;
use crate::order::{
    all_among, all_listed, insert_sorted, is_stable_sort_at, lemma_sorted_at, remove_sorted, retain_members,
    search_sorted, sorted_set_of, stable_sort, strictly_sorted, text_le, ColKey, Pair, Rev, Text, TotalOrder,
};
use crate::routines::{clone_opt_string, clone_strings, opt_text};
use crate::schedule::{due_within, is_due_within, next_fire_after, schedule_valid};
use crate::text::{
    blank, chars_of, concat, contains, contains_seq, decimal, decimal_chars, is_blank, lemma_contains_within, list_has,
    lower_trimmed, lowercase_chars, owned, same_text, slice_chars, string_of, trim, unicode_lowercase,
};

verus! {

/// How long ahead a job's next fire counts as "due soon", in seconds.
pub const DUE_SOON_WINDOW_SECS: i64 = 3_600;

/// A schedule-driven handler job as the server lists it. `metadata` holds the job's
/// JSON metadata in its compact serialized form.
#[derive(Debug, PartialEq)]
pub struct CronJob {
    pub id: String,
    pub schedule: String,
    pub handler: String,
    pub metadata: String,
    /// Machines this job runs on. An empty list runs nowhere.
    pub machines: Vec<String>,
    pub enabled: bool,
    pub created_at: u64,
    pub updated_at: u64,
    pub last_manual_trigger_at: Option<u64>,
    /// Human-readable schedule description supplied by the server.
    pub schedule_description: Option<String>,
}

/// The mathematical content of a [`CronJob`].
pub struct CronJobView {
    pub id: Seq<char>,
    pub schedule: Seq<char>,
    pub handler: Seq<char>,
    pub metadata: Seq<char>,
    pub machines: Seq<Seq<char>>,
    pub enabled: bool,
    pub created_at: u64,
    pub updated_at: u64,
    pub last_manual_trigger_at: Option<u64>,
    pub schedule_description: Option<Seq<char>>,
}

impl View for CronJob {
    type V = CronJobView;

    open spec fn view(&self) -> CronJobView {
        CronJobView {
            id: self.id@,
            schedule: self.schedule@,
            handler: self.handler@,
            metadata: self.metadata@,
            machines: self.machines.deep_view(),
            enabled: self.enabled,
            created_at: self.created_at,
            updated_at: self.updated_at,
            last_manual_trigger_at: self.last_manual_trigger_at,
            schedule_description: opt_text(self.schedule_description),
        }
    }
}

impl Clone for CronJob {
    fn clone(&self) -> (r: Self)
        ensures
            r@ == self@,
    {
        CronJob {
            id: self.id.clone(),
            schedule: self.schedule.clone(),
            handler: self.handler.clone(),
            metadata: self.metadata.clone(),
            machines: clone_strings(&self.machines),
            enabled: self.enabled,
            created_at: self.created_at,
            updated_at: self.updated_at,
            last_manual_trigger_at: self.last_manual_trigger_at,
            schedule_description: clone_opt_string(&self.schedule_description),
        }
    }
}

/// Body of a create-job request; `metadata` is the job's JSON metadata in compact form.
#[derive(Debug, PartialEq)]
pub struct CreateRequest {
    pub schedule: String,
    pub handler: String,
    pub metadata: String,
    /// Machines to run the job on; empty runs nowhere until assigned.
    pub machines: Vec<String>,
    pub enabled: bool,
}

/// Body of an update-job request: only the fields that are set change.
#[derive(Debug, PartialEq)]
pub struct UpdateRequest {
    pub schedule: Option<String>,
    pub handler: Option<String>,
    pub metadata: Option<String>,
    pub machines: Option<Vec<String>>,
    pub enabled: Option<bool>,
}

impl Default for UpdateRequest {
    fn default() -> (r: Self)
        ensures
            r.schedule is None && r.handler is None && r.metadata is None && r.machines is None && r.enabled is None,
    {
        UpdateRequest { schedule: None, handler: None, metadata: None, machines: None, enabled: None }
    }
}

/// The views of a job list.
pub open spec fn jobs_view(v: Seq<CronJob>) -> Seq<CronJobView> {
    v.map_values(|j: CronJob| j@)
}

// ─── Facets ─────────────────────────────────────────────────────────────────

/// Enabled/disabled/due-soon status facet.
#[derive(Debug, Clone, Copy, PartialEq, Eq, Structural)]
pub enum StatusFacet {
    All,
    Enabled,
    Disabled,
    DueSoon,
}

/// The token of a status facet.
pub open spec fn status_token(f: StatusFacet) -> Seq<char> {
    match f {
        StatusFacet::All => "all"@,
        StatusFacet::Enabled => "enabled"@,
        StatusFacet::Disabled => "disabled"@,
        StatusFacet::DueSoon => "due"@,
    }
}

/// The status facet a token names; anything unknown is `All`.
pub open spec fn status_from_token(s: Seq<char>) -> StatusFacet {
    if s == "enabled"@ {
        StatusFacet::Enabled
    } else if s == "disabled"@ {
        StatusFacet::Disabled
    } else if s == "due"@ {
        StatusFacet::DueSoon
    } else {
        StatusFacet::All
    }
}

impl Default for StatusFacet {
    fn default() -> (r: Self)
        ensures
            r == StatusFacet::All,
    {
        StatusFacet::All
    }
}

impl StatusFacet {
    /// Stable token used as the cross-filter id and the segmented-control value.
    pub fn as_str(self) -> (r: &'static str)
        ensures
            r@ == status_token(self),
    {
        match self {
            StatusFacet::All => "all",
            StatusFacet::Enabled => "enabled",
            StatusFacet::Disabled => "disabled",
            StatusFacet::DueSoon => "due",
        }
    }

    /// The facet a token names, `All` for anything unknown.
    pub fn from_str(s: &str) -> (r: Self)
        ensures
            r == status_from_token(s@),
    {
        if same_text(s, "enabled") {
            StatusFacet::Enabled
        } else if same_text(s, "disabled") {
            StatusFacet::Disabled
        } else if same_text(s, "due") {
            StatusFacet::DueSoon
        } else {
            StatusFacet::All
        }
    }
}

/// Select value of the machine facet's "any machine" choice.
pub open spec fn machine_any_token() -> Seq<char> {
    "\u{0}any"@
}

/// Select value of the machine facet's "unassigned" choice.
pub open spec fn machine_unassigned_token() -> Seq<char> {
    "\u{0}unassigned"@
}

/// Machine facet: any machine, the jobs with no machine, or one specific machine.
#[derive(Debug, PartialEq, Eq)]
pub enum MachineFacet {
    Any,
    Unassigned,
    Machine(String),
}

impl Default for MachineFacet {
    fn default() -> (r: Self)
        ensures
            r is Any,
    {
        MachineFacet::Any
    }
}

impl Clone for MachineFacet {
    fn clone(&self) -> (r: Self)
        ensures
            r@ == self@,
    {
        match self {
            MachineFacet::Any => MachineFacet::Any,
            MachineFacet::Unassigned => MachineFacet::Unassigned,
            MachineFacet::Machine(m) => MachineFacet::Machine(m.clone()),
        }
    }
}

/// The mathematical content of a machine facet.
pub enum MachineChoice {
    Any,
    Unassigned,
    Machine(Seq<char>),
}

impl View for MachineFacet {
    type V = MachineChoice;

    open spec fn view(&self) -> MachineChoice {
        match self {
            MachineFacet::Any => MachineChoice::Any,
            MachineFacet::Unassigned => MachineChoice::Unassigned,
            MachineFacet::Machine(m) => MachineChoice::Machine(m@),
        }
    }
}

/// The select value of a machine facet.
pub open spec fn machine_value(f: MachineChoice) -> Seq<char> {
    match f {
        MachineChoice::Any => machine_any_token(),
        MachineChoice::Unassigned => machine_unassigned_token(),
        MachineChoice::Machine(m) => m,
    }
}

/// The machine facet a select value names.
pub open spec fn machine_from_value(v: Seq<char>) -> MachineChoice {
    if v == machine_any_token() {
        MachineChoice::Any
    } else if v == machine_unassigned_token() {
        MachineChoice::Unassigned
    } else {
        MachineChoice::Machine(v)
    }
}

impl MachineFacet {
    /// Encode for the `<select>` option value.
    pub fn as_value(&self) -> (r: String)
        ensures
            r@ == machine_value(self@),
    {
        match self {
            MachineFacet::Any => owned("\u{0}any"),
            MachineFacet::Unassigned => owned("\u{0}unassigned"),
            MachineFacet::Machine(m) => m.clone(),
        }
    }

    /// Decode from a selected `<select>` option value.
    pub fn from_value(v: &str) -> (r: Self)
        ensures
            r@ == machine_from_value(v@),
    {
        if same_text(v, "\u{0}any") {
            MachineFacet::Any
        } else if same_text(v, "\u{0}unassigned") {
            MachineFacet::Unassigned
        } else {
            MachineFacet::Machine(owned(v))
        }
    }
}

/// Select value of the handler facet's "any handler" choice.
pub open spec fn handler_any_token() -> Seq<char> {
    "\u{0}any"@
}

/// The select value of a handler facet (`None` for any handler).
pub open spec fn handler_value(h: Option<Seq<char>>) -> Seq<char> {
    match h {
        None => handler_any_token(),
        Some(name) => name,
    }
}

/// The handler facet a select value names.
pub open spec fn handler_from_value(v: Seq<char>) -> Option<Seq<char>> {
    if v == handler_any_token() {
        None
    } else {
        Some(v)
    }
}

/// Handler facet: any handler, or one specific handler name.
#[derive(Debug, PartialEq, Eq)]
pub enum HandlerFacet {
    Any,
    Handler(String),
}

impl Default for HandlerFacet {
    fn default() -> (r: Self)
        ensures
            r is Any,
    {
        HandlerFacet::Any
    }
}

impl Clone for HandlerFacet {
    fn clone(&self) -> (r: Self)
        ensures
            r@ == self@,
    {
        match self {
            HandlerFacet::Any => HandlerFacet::Any,
            HandlerFacet::Handler(h) => HandlerFacet::Handler(h.clone()),
        }
    }
}

impl View for HandlerFacet {
    type V = Option<Seq<char>>;

    /// `None` for any handler, else the handler name.
    open spec fn view(&self) -> Option<Seq<char>> {
        match self {
            HandlerFacet::Any => None,
            HandlerFacet::Handler(h) => Some(h@),
        }
    }
}

impl HandlerFacet {
    /// Encode for the `<select>` option value.
    pub fn as_value(&self) -> (r: String)
        ensures
            r@ == handler_value(self@),
    {
        match self {
            HandlerFacet::Any => owned("\u{0}any"),
            HandlerFacet::Handler(h) => h.clone(),
        }
    }

    /// Decode from a selected `<select>` option value.
    pub fn from_value(v: &str) -> (r: Self)
        ensures
            r@ == handler_from_value(v@),
    {
        if same_text(v, "\u{0}any") {
            HandlerFacet::Any
        } else {
            HandlerFacet::Handler(owned(v))
        }
    }
}

// ─── Filter ─────────────────────────────────────────────────────────────────

/// Combined free-text + facet filter applied to the loaded jobs.
#[derive(Debug, PartialEq)]
pub struct JobFilter {
    pub query: String,
    pub status: StatusFacet,
    pub machine: MachineFacet,
    pub handler: HandlerFacet,
}

impl Default for JobFilter {
    fn default() -> (r: Self)
        ensures
            r.query@ == Seq::<char>::empty(),
            r.status == StatusFacet::All,
            r.machine is Any,
            r.handler is Any,
    {
        JobFilter {
            query: String::new(),
            status: StatusFacet::All,
            machine: MachineFacet::Any,
            handler: HandlerFacet::Any,
        }
    }
}

impl Clone for JobFilter {
    fn clone(&self) -> (r: Self)
        ensures
            r.query@ == self.query@,
            r.status == self.status,
            r.machine@ == self.machine@,
            r.handler@ == self.handler@,
    {
        JobFilter {
            query: self.query.clone(),
            status: self.status,
            machine: self.machine.clone(),
            handler: self.handler.clone(),
        }
    }
}

/// Whether a status facet admits a job that is `enabled` and `due` soon.
pub open spec fn status_admits(f: StatusFacet, enabled: bool, due: bool) -> bool {
    match f {
        StatusFacet::All => true,
        StatusFacet::Enabled => enabled,
        StatusFacet::Disabled => !enabled,
        StatusFacet::DueSoon => enabled && due,
    }
}

/// Whether a machine facet admits a job targeting `machines`.
pub open spec fn machine_admits(f: MachineChoice, machines: Seq<Seq<char>>) -> bool {
    match f {
        MachineChoice::Any => true,
        MachineChoice::Unassigned => machines.len() == 0,
        MachineChoice::Machine(m) => machines.contains(m),
    }
}

/// The lowercased text a job's free-text query is matched against: id, handler,
/// schedule, description and metadata, space separated.
pub open spec fn job_haystack(j: CronJobView) -> Seq<char> {
    let desc = match j.schedule_description {
        Some(d) => d,
        None => Seq::<char>::empty(),
    };
    unicode_lowercase(j.id) + " "@ + unicode_lowercase(j.handler) + " "@ + unicode_lowercase(j.schedule)
        + " "@ + unicode_lowercase(desc) + " "@ + unicode_lowercase(j.metadata)
}

/// Whether the free-text `query` admits a job: blank after trimming, or its lowercase
/// form occurs in the job's haystack.
pub open spec fn query_admits(query: Seq<char>, j: CronJobView) -> bool {
    trim(query).len() == 0 || contains_seq(job_haystack(j), unicode_lowercase(trim(query)))
}

/// Whether `f` keeps job `j`, whose next fire after the reference instant is due soon
/// exactly when `due` holds. Facets AND together.
pub open spec fn filter_admits(f: JobFilter, j: CronJobView, due: bool) -> bool {
    &&& status_admits(f.status, j.enabled, due)
    &&& machine_admits(f.machine@, j.machines)
    &&& match f.handler@ {
        None => true,
        Some(h) => j.handler == h,
    }
    &&& query_admits(f.query@, j)
}

/// The lowercased haystack of a job.
fn haystack(job: &CronJob) -> (r: Vec<char>)
    ensures
        r@ == job_haystack(job@),
{
    let sp = chars_of(" ");
    let id = lowercase_chars(job.id.as_str());
    let handler = lowercase_chars(job.handler.as_str());
    let schedule = lowercase_chars(job.schedule.as_str());
    let desc = match &job.schedule_description {
        Some(d) => lowercase_chars(d.as_str()),
        None => lowercase_chars(""),
    };
    let meta = lowercase_chars(job.metadata.as_str());
    let mut out = concat(id.as_slice(), sp.as_slice());
    out = concat(out.as_slice(), handler.as_slice());
    out = concat(out.as_slice(), sp.as_slice());
    out = concat(out.as_slice(), schedule.as_slice());
    out = concat(out.as_slice(), sp.as_slice());
    out = concat(out.as_slice(), desc.as_slice());
    out = concat(out.as_slice(), sp.as_slice());
    out = concat(out.as_slice(), meta.as_slice());
    proof {
        if job.schedule_description is None {
            reveal_strlit("");
            assert(""@ =~= Seq::<char>::empty());
        }
    }
    out
}

impl JobFilter {
    /// Whether any facet is narrowing the list.
    pub fn is_active(&self) -> (r: bool)
        ensures
            r == (trim(self.query@).len() > 0 || self.status != StatusFacet::All || !(self.machine is Any)
                || !(self.handler is Any)),
    {
        let q = chars_of(self.query.as_str());
        let t = crate::text::trimmed(q.as_slice());
        t.len() > 0 || self.status != StatusFacet::All || !matches!(self.machine, MachineFacet::Any)
            || !matches!(self.handler, HandlerFacet::Any)
    }

    /// Does `job` survive the filter, given its next fire `next` after `now`? The status
    /// facet `DueSoon` keeps an enabled job whose next fire lies within `window` seconds.
    pub fn matches_with(&self, job: &CronJob, next: Option<i64>, now: i64, window: i64) -> (r: bool)
        ensures
            r == filter_admits(*self, job@, due_within(next, now, window)),
    {
        let due = is_due_within(next, now, window);
        let status_ok = match self.status {
            StatusFacet::All => true,
            StatusFacet::Enabled => job.enabled,
            StatusFacet::Disabled => !job.enabled,
            StatusFacet::DueSoon => job.enabled && due,
        };
        if !status_ok {
            return false;
        }
        let machine_ok = match &self.machine {
            MachineFacet::Any => true,
            MachineFacet::Unassigned => job.machines.len() == 0,
            MachineFacet::Machine(m) => list_has(&job.machines, m.as_str()),
        };
        if !machine_ok {
            return false;
        }
        let handler_ok = match &self.handler {
            HandlerFacet::Any => true,
            HandlerFacet::Handler(h) => job.handler == *h,
        };
        if !handler_ok {
            return false;
        }
        let q = lower_trimmed(self.query.as_str());
        if q.len() > 0 {
            let hay = haystack(job);
            contains(hay.as_slice(), q.as_slice())
        } else {
            true
        }
    }

    /// Does `job` survive the filter as of `now`? The due-soon facet looks up the job's
    /// next fire; whatever that lookup returns, the answer is the one [`filter_admits`]
    /// gives for it, and a job counted due soon has a valid schedule.
    pub fn matches(&self, job: &CronJob, now: i64, window: i64) -> (r: bool)
        ensures
            exists|next: Option<i64>|
                {
                    &&& (next matches Some(t) ==> t > now && schedule_valid(job.schedule@))
                    &&& r == filter_admits(*self, job@, due_within(next, now, window))
                },
    {
        let next = if self.status == StatusFacet::DueSoon {
            next_fire_after(job.schedule.as_str(), now)
        } else {
            None
        };
        self.matches_with(job, next, now, window)
    }
}

/// The jobs of `jobs` that `f` keeps, in order, where `nexts[i]` is the next fire of
/// `jobs[i]` after `now`.
pub open spec fn filtered(
    jobs: Seq<CronJobView>,
    f: JobFilter,
    nexts: Seq<Option<i64>>,
    now: i64,
    window: i64,
) -> Seq<CronJobView>
    decreases jobs.len(),
{
    if jobs.len() == 0 {
        seq![]
    } else {
        let rest = filtered(jobs.drop_last(), f, nexts.drop_last(), now, window);
        if filter_admits(f, jobs.last(), due_within(nexts.last(), now, window)) {
            rest.push(jobs.last())
        } else {
            rest
        }
    }
}

/// Possible next fires of `jobs` after `now`: each one found lies after `now` on a job
/// with a valid schedule.
pub open spec fn plausible_nexts(jobs: Seq<CronJobView>, nexts: Seq<Option<i64>>, now: i64) -> bool {
    &&& nexts.len() == jobs.len()
    &&& forall|i: int|
        0 <= i < jobs.len() ==> (#[trigger] nexts[i] matches Some(t) ==> t > now && schedule_valid(
            jobs[i].schedule,
        ))
}

/// Jobs surviving `filter`, preserving the input order.
pub fn filter_jobs(jobs: &[CronJob], filter: &JobFilter, now: i64, window: i64) -> (r: Vec<CronJob>)
    ensures
        exists|nexts: Seq<Option<i64>>|
            {
                &&& plausible_nexts(jobs_view(jobs@), nexts, now)
                &&& jobs_view(r@) == filtered(jobs_view(jobs@), *filter, nexts, now, window)
            },
{
    let mut out: Vec<CronJob> = Vec::new();
    let ghost mut nexts: Seq<Option<i64>> = seq![];
    let mut i: usize = 0;
    while i < jobs.len()
        invariant
            i <= jobs@.len(),
            plausible_nexts(jobs_view(jobs@.take(i as int)), nexts, now),
            jobs_view(out@) == filtered(jobs_view(jobs@.take(i as int)), *filter, nexts, now, window),
        decreases jobs@.len() - i,
    {
        let job = &jobs[i];
        let next = if filter.status == StatusFacet::DueSoon {
            next_fire_after(job.schedule.as_str(), now)
        } else {
            None
        };
        let keep = filter.matches_with(job, next, now, window);
        let ghost before = out@;
        if keep {
            out.push(job.clone());
        }
        proof {
            let pre = jobs_view(jobs@.take(i as int));
            let post = jobs_view(jobs@.take(i + 1));
            assert(post =~= pre.push(job@));
            assert(post.drop_last() =~= pre);
            let nn = nexts.push(next);
            assert(nn.drop_last() =~= nexts);
            assert forall|k: int| 0 <= k < post.len() implies (#[trigger] nn[k] matches Some(t) ==> t > now
                && schedule_valid(post[k].schedule)) by {
                if k < pre.len() {
                    assert(nn[k] == nexts[k]);
                }
            }
            nexts = nn;
            if keep {
                assert(jobs_view(out@) =~= jobs_view(before).push(job@));
            } else {
                assert(jobs_view(out@) =~= jobs_view(before));
            }
        }
        i = i + 1;
    }
    proof {
        assert(jobs@.take(jobs@.len() as int) =~= jobs@);
    }
    out
}

// ─── Status tiles ───────────────────────────────────────────────────────────

/// The counts on the status tiles above the job table.
#[derive(Debug, Clone, Copy, PartialEq, Eq, Structural)]
pub struct JobStats {
    pub total: usize,
    pub enabled: usize,
    pub disabled: usize,
    /// Enabled jobs whose next fire lands within the due-soon window.
    pub due_soon: usize,
}

/// How many jobs of `jobs` are enabled.
pub open spec fn enabled_jobs(jobs: Seq<CronJobView>) -> nat
    decreases jobs.len(),
{
    if jobs.len() == 0 {
        0
    } else {
        enabled_jobs(jobs.drop_last()) + if jobs.last().enabled { 1nat } else { 0nat }
    }
}

/// How many jobs of `jobs` are enabled and due within `window` of `now`, `nexts[i]`
/// being the next fire of `jobs[i]`.
pub open spec fn due_jobs(jobs: Seq<CronJobView>, nexts: Seq<Option<i64>>, now: i64, window: i64) -> nat
    decreases jobs.len(),
{
    if jobs.len() == 0 {
        0
    } else {
        due_jobs(jobs.drop_last(), nexts.drop_last(), now, window) + if jobs.last().enabled && due_within(
            nexts.last(),
            now,
            window,
        ) {
            1nat
        } else {
            0nat
        }
    }
}

/// The tile counts of `jobs` when `nexts[i]` is the next fire of `jobs[i]`.
pub open spec fn stats_of(jobs: Seq<CronJobView>, nexts: Seq<Option<i64>>, now: i64, window: i64, s: JobStats) -> bool {
    &&& s.total == jobs.len()
    &&& s.enabled == enabled_jobs(jobs)
    &&& s.disabled == jobs.len() - enabled_jobs(jobs)
    &&& s.due_soon == due_jobs(jobs, nexts, now, window)
}

/// The due jobs are among the enabled ones, which are among all jobs.
pub proof fn lemma_job_tiles_nest(jobs: Seq<CronJobView>, nexts: Seq<Option<i64>>, now: i64, window: i64)
    ensures
        due_jobs(jobs, nexts, now, window) <= enabled_jobs(jobs) <= jobs.len(),
    decreases jobs.len(),
{
    if jobs.len() > 0 {
        lemma_job_tiles_nest(jobs.drop_last(), nexts.drop_last(), now, window);
    }
}

/// The tile counts of `jobs` when `nexts[i]` is the next fire of `jobs[i]`.
pub fn job_stats_given(jobs: &[CronJob], nexts: &[Option<i64>], now: i64, window: i64) -> (r: JobStats)
    requires
        nexts@.len() == jobs@.len(),
    ensures
        stats_of(jobs_view(jobs@), nexts@, now, window, r),
{
    let ghost all = jobs_view(jobs@);
    let mut enabled: usize = 0;
    let mut due: usize = 0;
    let mut i: usize = 0;
    while i < jobs.len()
        invariant
            i <= jobs@.len(),
            nexts@.len() == jobs@.len(),
            all == jobs_view(jobs@),
            enabled == enabled_jobs(all.take(i as int)),
            due == due_jobs(all.take(i as int), nexts@.take(i as int), now, window),
        decreases jobs@.len() - i,
    {
        proof {
            let pre = all.take(i as int);
            let post = all.take(i + 1);
            assert(post.drop_last() =~= pre);
            assert(nexts@.take(i + 1).drop_last() =~= nexts@.take(i as int));
            assert(post.last() == jobs@[i as int]@);
            assert(nexts@.take(i + 1).last() == nexts@[i as int]);
            lemma_job_tiles_nest(pre, nexts@.take(i as int), now, window);
        }
        if jobs[i].enabled {
            enabled = enabled + 1;
            if is_due_within(nexts[i], now, window) {
                due = due + 1;
            }
        }
        i = i + 1;
    }
    proof {
        assert(all.take(all.len() as int) =~= all);
        assert(nexts@.take(nexts@.len() as int) =~= nexts@);
        lemma_job_tiles_nest(all, nexts@, now, window);
    }
    JobStats { total: jobs.len(), enabled, disabled: jobs.len() - enabled, due_soon: due }
}

/// The tile counts of `jobs` as of `now`. The next fire of each enabled job is looked up;
/// whatever comes back, the counts are the ones [`stats_of`] gives for it.
pub fn job_stats(jobs: &[CronJob], now: i64, window: i64) -> (r: JobStats)
    ensures
        exists|nexts: Seq<Option<i64>>| plausible_nexts(jobs_view(jobs@), nexts, now) && stats_of(jobs_view(jobs@), nexts, now, window, r),
{
    let mut nexts: Vec<Option<i64>> = Vec::new();
    let mut i: usize = 0;
    while i < jobs.len()
        invariant
            i <= jobs@.len(),
            nexts@.len() == i,
            forall|k: int| 0 <= k < i ==> (#[trigger] nexts@[k] matches Some(t) ==> t > now && schedule_valid(
                jobs@[k].schedule@,
            )),
        decreases jobs@.len() - i,
    {
        let next = if jobs[i].enabled {
            next_fire_after(jobs[i].schedule.as_str(), now)
        } else {
            None
        };
        nexts.push(next);
        i = i + 1;
    }
    proof {
        assert(plausible_nexts(jobs_view(jobs@), nexts@, now));
    }
    job_stats_given(jobs, nexts.as_slice(), now, window)
}

impl StatusFacet {
    /// The facet that a click on the tile of `tile` selects while `self` is active: that
    /// tile's facet, or `All` again when it is the active one.
    pub fn toggled(self, tile: StatusFacet) -> (r: StatusFacet)
        ensures
            r == (if self == tile { StatusFacet::All } else { tile }),
    {
        if self == tile {
            StatusFacet::All
        } else {
            tile
        }
    }
}

// ─── Distinct values ────────────────────────────────────────────────────────

/// Some job of `jobs` targets machine `m`.
pub open spec fn some_job_targets(jobs: Seq<CronJobView>, m: Seq<char>) -> bool {
    exists|i: int| 0 <= i < jobs.len() && (#[trigger] jobs[i]).machines.contains(m)
}

/// Distinct machine ids across all jobs, sorted, for the machine-facet options.
#[verifier::spinoff_prover]
pub fn distinct_machines(jobs: &[CronJob]) -> (r: Vec<String>)
    ensures
        strictly_sorted(r.deep_view()),
        forall|m: Seq<char>| #[trigger] r.deep_view().contains(m) <==> some_job_targets(jobs_view(jobs@), m),
{
    let mut set: Vec<String> = Vec::new();
    let mut i: usize = 0;
    while i < jobs.len()
        invariant
            i <= jobs@.len(),
            strictly_sorted(set.deep_view()),
            forall|m: Seq<char>| #[trigger] set.deep_view().contains(m) <==> some_job_targets(
                jobs_view(jobs@.take(i as int)),
                m,
            ),
        decreases jobs@.len() - i,
    {
        let job = &jobs[i];
        let mut k: usize = 0;
        while k < job.machines.len()
            invariant
                k <= job.machines@.len(),
                i < jobs@.len(),
                job == jobs@[i as int],
                strictly_sorted(set.deep_view()),
                forall|m: Seq<char>| #[trigger] set.deep_view().contains(m) <==> (some_job_targets(
                    jobs_view(jobs@.take(i as int)),
                    m,
                ) || job.machines.deep_view().take(k as int).contains(m)),
            decreases job.machines@.len() - k,
        {
            insert_sorted(&mut set, &job.machines[k]);
            proof {
                let dv = job.machines.deep_view();
                assert forall|m: Seq<char>| dv.take(k + 1).contains(m) <==> (dv.take(k as int).contains(m) || m
                    == job.machines@[k as int]@) by {
                    let a = dv.take(k + 1);
                    let b = dv.take(k as int);
                    if a.contains(m) {
                        let x = choose|x: int| 0 <= x < a.len() && #[trigger] a[x] == m;
                        if x < k {
                            assert(b[x] == m);
                        }
                    }
                    if b.contains(m) {
                        let x = choose|x: int| 0 <= x < b.len() && #[trigger] b[x] == m;
                        assert(a[x] == m);
                    }
                    if m == job.machines@[k as int]@ {
                        assert(dv.take(k + 1)[k as int] == m);
                    }
                }
            }
            k = k + 1;
        }
        proof {
            let pre = jobs_view(jobs@.take(i as int));
            let post = jobs_view(jobs@.take(i + 1));
            assert(post =~= pre.push(job@));
            assert(job.machines.deep_view().take(job.machines@.len() as int) =~= job.machines.deep_view());
            assert forall|m: Seq<char>| some_job_targets(post, m) <==> (some_job_targets(pre, m)
                || job.machines.deep_view().contains(m)) by {
                if some_job_targets(post, m) {
                    let x = choose|x: int| 0 <= x < post.len() && (#[trigger] post[x]).machines.contains(m);
                    if x < pre.len() {
                        assert(pre[x] == post[x]);
                    }
                }
                if some_job_targets(pre, m) {
                    let x = choose|x: int| 0 <= x < pre.len() && (#[trigger] pre[x]).machines.contains(m);
                    assert(post[x] == pre[x]);
                }
                if job.machines.deep_view().contains(m) {
                    assert(post[pre.len() as int] == job@);
                }
            }
        }
        i = i + 1;
    }
    proof {
        assert(jobs@.take(jobs@.len() as int) =~= jobs@);
    }
    set
}

/// Number of jobs with no machine assigned.
pub open spec fn unassigned_jobs(jobs: Seq<CronJobView>) -> nat
    decreases jobs.len(),
{
    if jobs.len() == 0 {
        0
    } else {
        unassigned_jobs(jobs.drop_last()) + if jobs.last().machines.len() == 0 {
            1nat
        } else {
            0nat
        }
    }
}

/// Count of dormant jobs (no machine assigned).
pub fn unassigned_count(jobs: &[CronJob]) -> (r: usize)
    ensures
        r == unassigned_jobs(jobs_view(jobs@)),
{
    let mut n: usize = 0;
    let mut i: usize = 0;
    while i < jobs.len()
        invariant
            i <= jobs@.len(),
            n <= i,
            n == unassigned_jobs(jobs_view(jobs@.take(i as int))),
        decreases jobs@.len() - i,
    {
        proof {
            assert(jobs_view(jobs@.take(i + 1)).drop_last() =~= jobs_view(jobs@.take(i as int)));
            assert(jobs_view(jobs@.take(i + 1)).last() == jobs@[i as int]@);
        }
        if jobs[i].machines.len() == 0 {
            n = n + 1;
        }
        i = i + 1;
    }
    proof {
        assert(jobs@.take(jobs@.len() as int) =~= jobs@);
    }
    n
}

/// Distinct handler names across all jobs, sorted, for the handler-facet options.
pub fn distinct_handlers(jobs: &[CronJob]) -> (r: Vec<String>)
    ensures
        strictly_sorted(r.deep_view()),
        forall|h: Seq<char>| #[trigger] r.deep_view().contains(h) <==> exists|i: int|
            0 <= i < jobs@.len() && (#[trigger] jobs@[i]).handler@ == h,
{
    let mut set: Vec<String> = Vec::new();
    let mut i: usize = 0;
    while i < jobs.len()
        invariant
            i <= jobs@.len(),
            strictly_sorted(set.deep_view()),
            forall|h: Seq<char>| #[trigger] set.deep_view().contains(h) <==> exists|k: int|
                0 <= k < i && (#[trigger] jobs@[k]).handler@ == h,
        decreases jobs@.len() - i,
    {
        insert_sorted(&mut set, &jobs[i].handler);
        proof {
            assert forall|h: Seq<char>| #[trigger] set.deep_view().contains(h) <==> exists|k: int|
                0 <= k < i + 1 && (#[trigger] jobs@[k]).handler@ == h by {
                if set.deep_view().contains(h) && h == jobs@[i as int].handler@ {
                    assert(jobs@[i as int].handler@ == h);
                }
            }
        }
        i = i + 1;
    }
    set
}

// ─── Column sort ────────────────────────────────────────────────────────────

/// The column the job table is sorted by.
#[derive(Debug, Clone, Copy, PartialEq, Eq, Structural)]
pub enum SortCol {
    Id,
    Handler,
    NextRun,
    Enabled,
    Updated,
}

/// Sort direction.
#[derive(Debug, Clone, Copy, PartialEq, Eq, Structural)]
pub enum SortDir {
    Asc,
    Desc,
}

impl Default for SortDir {
    fn default() -> (r: Self)
        ensures
            r == SortDir::Asc,
    {
        SortDir::Asc
    }
}

impl SortDir {
    /// The opposite direction.
    pub fn flip(self) -> (r: Self)
        ensures
            r == flipped(self),
    {
        match self {
            SortDir::Asc => SortDir::Desc,
            SortDir::Desc => SortDir::Asc,
        }
    }
}

/// A job's next fire as the NEXT RUN column sorts it: disabled jobs have none.
pub open spec fn effective_next(j: CronJobView, next: Option<i64>) -> Option<i64> {
    if j.enabled {
        next
    } else {
        None
    }
}

/// Soonest first, jobs without a next fire last.
pub open spec fn soonest_le(a: Option<i64>, b: Option<i64>) -> bool {
    match (a, b) {
        (Some(x), Some(y)) => x <= y,
        (Some(_), None) => true,
        (None, Some(_)) => false,
        (None, None) => true,
    }
}

/// Ascending order of the sort column `col` (`na`, `nb`: the jobs' next fires).
pub open spec fn column_le(col: SortCol, a: CronJobView, b: CronJobView, na: Option<i64>, nb: Option<i64>) -> bool {
    match col {
        SortCol::Id => text_le(a.id, b.id),
        SortCol::Handler => text_le(a.handler, b.handler),
        SortCol::NextRun => soonest_le(effective_next(a, na), effective_next(b, nb)),
        SortCol::Enabled => !a.enabled || b.enabled,
        SortCol::Updated => a.updated_at <= b.updated_at,
    }
}

/// Table order: the sort column in direction `dir`, then the id ascending.
pub open spec fn job_order_le(
    col: SortCol,
    dir: SortDir,
    a: CronJobView,
    b: CronJobView,
    na: Option<i64>,
    nb: Option<i64>,
) -> bool {
    let ab = if dir == SortDir::Asc { column_le(col, a, b, na, nb) } else { column_le(col, b, a, nb, na) };
    let ba = if dir == SortDir::Asc { column_le(col, b, a, nb, na) } else { column_le(col, a, b, na, nb) };
    ||| ab && !ba
    ||| ab && ba && text_le(a.id, b.id)
}

spec fn col_key_of(k: ColKey, col: SortCol, j: CronJobView, next: Option<i64>) -> bool {
    match (col, k) {
        (SortCol::Id, ColKey::Text(v)) => v@ == j.id,
        (SortCol::Handler, ColKey::Text(v)) => v@ == j.handler,
        (SortCol::NextRun, ColKey::Soonest(n)) => n == effective_next(j, next),
        (SortCol::Enabled, ColKey::Flag(e)) => e == j.enabled,
        (SortCol::Updated, ColKey::Number(u)) => u == j.updated_at,
        _ => false,
    }
}

fn column_key(job: &CronJob, col: SortCol, next: Option<i64>) -> (r: ColKey)
    ensures
        col_key_of(r, col, job@, next),
{
    match col {
        SortCol::Id => ColKey::Text(chars_of(job.id.as_str())),
        SortCol::Handler => ColKey::Text(chars_of(job.handler.as_str())),
        SortCol::NextRun => ColKey::Soonest(if job.enabled { next } else { None }),
        SortCol::Enabled => ColKey::Flag(job.enabled),
        SortCol::Updated => ColKey::Number(job.updated_at),
    }
}

proof fn lemma_col_key_le(k1: ColKey, k2: ColKey, col: SortCol, a: CronJobView, b: CronJobView, na: Option<i64>, nb: Option<i64>)
    requires
        col_key_of(k1, col, a, na),
        col_key_of(k2, col, b, nb),
    ensures
        k1.key_le(k2) == column_le(col, a, b, na, nb),
{
}

/// `jobs` in table order for column `col` and direction `dir` (see [`job_order_le`]),
/// ties kept in input order; `nexts[i]` is the next fire of `jobs[i]`.
pub fn sort_jobs_by(jobs: Vec<CronJob>, col: SortCol, dir: SortDir, nexts: &[Option<i64>]) -> (r: Vec<CronJob>)
    requires
        nexts@.len() == jobs@.len(),
    ensures
        is_stable_sort_at(
            jobs_view(r@),
            jobs_view(jobs@),
            |i: int, j: int| job_order_le(col, dir, jobs@[i]@, jobs@[j]@, nexts@[i], nexts@[j]),
        ),
{
    let ghost j0 = jobs@;
    let mut items = jobs;
    let ghost le = |i: int, j: int| job_order_le(col, dir, j0[i]@, j0[j]@, nexts@[i], nexts@[j]);
    if dir == SortDir::Asc {
        let mut keys: Vec<Pair<ColKey, Text>> = Vec::new();
        let mut i: usize = 0;
        while i < items.len()
            invariant
                i <= items@.len(),
                items@ == j0,
                nexts@.len() == j0.len(),
                keys@.len() == i,
                forall|k: int| 0 <= k < i ==> col_key_of((#[trigger] keys@[k]).first, col, j0[k]@, nexts@[k])
                    && keys@[k].second.chars@ == j0[k]@.id,
            decreases items@.len() - i,
        {
            let key = Pair {
                first: column_key(&items[i], col, nexts[i]),
                second: Text { chars: chars_of(items[i].id.as_str()) },
            };
            keys.push(key);
            i = i + 1;
        }
        let ghost ks = keys@;
        let perm = stable_sort(&mut items, &mut keys);
        proof {
            assert forall|a: int, b: int| 0 <= a < j0.len() && 0 <= b < j0.len() implies (#[trigger] ks[a]).key_le(
                #[trigger] ks[b],
            ) == le(a, b) by {
                lemma_col_key_le(ks[a].first, ks[b].first, col, j0[a]@, j0[b]@, nexts@[a], nexts@[b]);
                lemma_col_key_le(ks[b].first, ks[a].first, col, j0[b]@, j0[a]@, nexts@[b], nexts@[a]);
            }
            lemma_sorted_at(items@, j0, ks, perm@, le);
        }
    } else {
        let mut keys: Vec<Pair<Rev<ColKey>, Text>> = Vec::new();
        let mut i: usize = 0;
        while i < items.len()
            invariant
                i <= items@.len(),
                items@ == j0,
                nexts@.len() == j0.len(),
                keys@.len() == i,
                forall|k: int| 0 <= k < i ==> col_key_of((#[trigger] keys@[k]).first.inner, col, j0[k]@, nexts@[k])
                    && keys@[k].second.chars@ == j0[k]@.id,
            decreases items@.len() - i,
        {
            let key = Pair {
                first: Rev { inner: column_key(&items[i], col, nexts[i]) },
                second: Text { chars: chars_of(items[i].id.as_str()) },
            };
            keys.push(key);
            i = i + 1;
        }
        let ghost ks = keys@;
        let perm = stable_sort(&mut items, &mut keys);
        proof {
            assert forall|a: int, b: int| 0 <= a < j0.len() && 0 <= b < j0.len() implies (#[trigger] ks[a]).key_le(
                #[trigger] ks[b],
            ) == le(a, b) by {
                lemma_col_key_le(ks[a].first.inner, ks[b].first.inner, col, j0[a]@, j0[b]@, nexts@[a], nexts@[b]);
                lemma_col_key_le(ks[b].first.inner, ks[a].first.inner, col, j0[b]@, j0[a]@, nexts@[b], nexts@[a]);
            }
            lemma_sorted_at(items@, j0, ks, perm@, le);
        }
    }
    items
}

/// `jobs` sorted by `col` in `dir` order, ties broken by id, then by input order; with no
/// column the input order is kept. The NEXT RUN column looks up each enabled job's next
/// fire after `now`; whatever comes back, the order is the one [`job_order_le`] gives
/// for it.
pub fn sort_jobs(jobs: Vec<CronJob>, col: Option<SortCol>, dir: SortDir, now: i64) -> (r: Vec<CronJob>)
    ensures
        col is None ==> jobs_view(r@) == jobs_view(jobs@),
        col matches Some(c) ==> exists|nexts: Seq<Option<i64>>|
            {
                &&& plausible_nexts(jobs_view(jobs@), nexts, now)
                &&& is_stable_sort_at(
                    jobs_view(r@),
                    jobs_view(jobs@),
                    |i: int, j: int| job_order_le(c, dir, jobs@[i]@, jobs@[j]@, nexts[i], nexts[j]),
                )
            },
{
    let c = match col {
        Some(c) => c,
        None => return jobs,
    };
    let mut nexts: Vec<Option<i64>> = Vec::new();
    let mut i: usize = 0;
    while i < jobs.len()
        invariant
            i <= jobs@.len(),
            nexts@.len() == i,
            forall|k: int| 0 <= k < i ==> (#[trigger] nexts@[k] matches Some(t) ==> t > now && schedule_valid(
                jobs@[k].schedule@,
            )),
        decreases jobs@.len() - i,
    {
        let next = if c == SortCol::NextRun && jobs[i].enabled {
            next_fire_after(jobs[i].schedule.as_str(), now)
        } else {
            None
        };
        nexts.push(next);
        i = i + 1;
    }
    proof {
        assert(plausible_nexts(jobs_view(jobs@), nexts@, now));
    }
    sort_jobs_by(jobs, c, dir, nexts.as_slice())
}

// ─── Group-by ───────────────────────────────────────────────────────────────

/// Dimension the job table is grouped into labelled sections by. `Flat` (the default)
/// keeps one flat list.
#[derive(Debug, Clone, Copy, PartialEq, Eq, Structural)]
pub enum GroupBy {
    Flat,
    /// By handler name.
    Handler,
    /// By first target machine; jobs with no machine share an `(unassigned)` section.
    Machine,
    /// By enabled/disabled status.
    Status,
}

impl Default for GroupBy {
    fn default() -> (r: Self)
        ensures
            r == GroupBy::Flat,
    {
        GroupBy::Flat
    }
}

/// The selector token of a group-by dimension.
pub open spec fn group_token(g: GroupBy) -> Seq<char> {
    match g {
        GroupBy::Flat => "none"@,
        GroupBy::Handler => "handler"@,
        GroupBy::Machine => "machine"@,
        GroupBy::Status => "status"@,
    }
}

/// The dimension a selector token names; anything unknown is `Flat`.
pub open spec fn group_from_token(s: Seq<char>) -> GroupBy {
    if s == "handler"@ {
        GroupBy::Handler
    } else if s == "machine"@ {
        GroupBy::Machine
    } else if s == "status"@ {
        GroupBy::Status
    } else {
        GroupBy::Flat
    }
}

/// The label shown for a group-by dimension in the selector.
pub open spec fn group_label(g: GroupBy) -> Seq<char> {
    match g {
        GroupBy::Flat => "None"@,
        GroupBy::Handler => "Handler"@,
        GroupBy::Machine => "Machine"@,
        GroupBy::Status => "Status"@,
    }
}

impl GroupBy {
    /// Stable token stored as the selector option value.
    pub fn as_str(self) -> (r: &'static str)
        ensures
            r@ == group_token(self),
    {
        match self {
            GroupBy::Flat => "none",
            GroupBy::Handler => "handler",
            GroupBy::Machine => "machine",
            GroupBy::Status => "status",
        }
    }

    /// The dimension a token names, `Flat` for anything unknown.
    pub fn from_str(s: &str) -> (r: Self)
        ensures
            r == group_from_token(s@),
    {
        if same_text(s, "handler") {
            GroupBy::Handler
        } else if same_text(s, "machine") {
            GroupBy::Machine
        } else if same_text(s, "status") {
            GroupBy::Status
        } else {
            GroupBy::Flat
        }
    }

    /// Short human label shown in the selector.
    pub fn label(self) -> (r: &'static str)
        ensures
            r@ == group_label(self),
    {
        match self {
            GroupBy::Flat => "None",
            GroupBy::Handler => "Handler",
            GroupBy::Machine => "Machine",
            GroupBy::Status => "Status",
        }
    }
}

/// The section a job falls in under `by`.
pub open spec fn group_key_of(j: CronJobView, by: GroupBy) -> Seq<char> {
    match by {
        GroupBy::Flat => seq![],
        GroupBy::Handler => j.handler,
        GroupBy::Machine => if j.machines.len() > 0 {
            j.machines[0]
        } else {
            "(unassigned)"@
        },
        GroupBy::Status => if j.enabled {
            "Enabled"@
        } else {
            "Disabled"@
        },
    }
}

/// The jobs of `jobs` in section `label` under `by`, in input order.
pub open spec fn group_members(jobs: Seq<CronJobView>, by: GroupBy, label: Seq<char>) -> Seq<CronJobView> {
    jobs.filter(|j: CronJobView| group_key_of(j, by) == label)
}

/// The section label of `job` under `by`: a job always belongs to exactly one section.
pub fn group_key(job: &CronJob, by: GroupBy) -> (r: String)
    ensures
        r@ == group_key_of(job@, by),
{
    match by {
        GroupBy::Flat => String::new(),
        GroupBy::Handler => job.handler.clone(),
        GroupBy::Machine => if job.machines.len() > 0 {
            job.machines[0].clone()
        } else {
            owned("(unassigned)")
        },
        GroupBy::Status => if job.enabled {
            owned("Enabled")
        } else {
            owned("Disabled")
        },
    }
}

/// A copy of a job list.
pub fn clone_jobs(jobs: &[CronJob]) -> (r: Vec<CronJob>)
    ensures
        jobs_view(r@) == jobs_view(jobs@),
{
    let mut out: Vec<CronJob> = Vec::new();
    let mut i: usize = 0;
    while i < jobs.len()
        invariant
            i <= jobs@.len(),
            jobs_view(out@) == jobs_view(jobs@.take(i as int)),
        decreases jobs@.len() - i,
    {
        let ghost before = out@;
        out.push(jobs[i].clone());
        proof {
            assert(jobs@.take(i + 1) =~= jobs@.take(i as int).push(jobs@[i as int]));
            assert(jobs_view(out@) =~= jobs_view(before).push(jobs@[i as int]@));
            assert(jobs_view(out@) =~= jobs_view(jobs@.take(i + 1)));
        }
        i = i + 1;
    }
    proof {
        assert(jobs@.take(jobs@.len() as int) =~= jobs@);
    }
    out
}

proof fn lemma_members_push(pre: Seq<CronJobView>, job: CronJobView, by: GroupBy, label: Seq<char>)
    ensures
        group_members(pre.push(job), by, label) == (if group_key_of(job, by) == label {
            group_members(pre, by, label).push(job)
        } else {
            group_members(pre, by, label)
        }),
{
    reveal(Seq::filter);
    assert(pre.push(job).drop_last() =~= pre);
}

/// `jobs` partitioned into `(label, members)` sections sorted by label in text order,
/// one per label that some job has; within a section the input order is kept. Under
/// `Flat` a single section with an empty label holds every job.
pub fn group_jobs(jobs: &[CronJob], by: GroupBy) -> (r: Vec<(String, Vec<CronJob>)>)
    ensures
        by == GroupBy::Flat ==> r@.len() == 1 && r@[0].0@ == Seq::<char>::empty() && jobs_view(r@[0].1@)
            == jobs_view(jobs@),
        by != GroupBy::Flat ==> {
            &&& strictly_sorted(r@.map_values(|g: (String, Vec<CronJob>)| g.0@))
            &&& forall|label: Seq<char>|
                #![trigger group_members(jobs_view(jobs@), by, label)]
                r@.map_values(|g: (String, Vec<CronJob>)| g.0@).contains(label) <==> group_members(
                    jobs_view(jobs@),
                    by,
                    label,
                ).len() > 0
            &&& forall|g: int|
                0 <= g < r@.len() ==> jobs_view((#[trigger] r@[g]).1@) == group_members(
                    jobs_view(jobs@),
                    by,
                    r@[g].0@,
                )
        },
{
    if by == GroupBy::Flat {
        return vec![(String::new(), clone_jobs(jobs))];
    }
    let mut labels: Vec<String> = Vec::new();
    let mut groups: Vec<Vec<CronJob>> = Vec::new();
    let mut i: usize = 0;
    while i < jobs.len()
        invariant
            i <= jobs@.len(),
            labels@.len() == groups@.len(),
            strictly_sorted(labels.deep_view()),
            forall|label: Seq<char>|
                #![trigger group_members(jobs_view(jobs@.take(i as int)), by, label)]
                labels.deep_view().contains(label) <==> group_members(jobs_view(jobs@.take(i as int)), by, label).len() > 0,
            forall|g: int|
                0 <= g < groups@.len() ==> jobs_view(#[trigger] groups@[g]@) == group_members(
                    jobs_view(jobs@.take(i as int)),
                    by,
                    labels.deep_view()[g],
                ),
        decreases jobs@.len() - i,
    {
        let job = &jobs[i];
        let key = group_key(job, by);
        let ghost pre = jobs_view(jobs@.take(i as int));
        let ghost post = jobs_view(jobs@.take(i + 1));
        let ghost l0 = labels.deep_view();
        let ghost g0 = groups@;
        proof {
            assert(post =~= pre.push(job@));
        }
        let (p, found) = search_sorted(&labels, key.as_str());
        if found {
            let mut members = groups.remove(p);
            members.push(job.clone());
            let ghost m1 = members;
            groups.insert(p, members);
            proof {
                assert(groups@ =~= g0.update(p as int, m1));
                assert(labels.deep_view() == l0);
                assert forall|label: Seq<char>|
                    #![trigger group_members(post, by, label)]
                    l0.contains(label) <==> group_members(post, by, label).len() > 0 by {
                    lemma_members_push(pre, job@, by, label);
                    if label == key@ {
                        assert(l0[p as int] == label);
                    }
                }
                assert forall|g: int| 0 <= g < groups@.len() implies jobs_view(#[trigger] groups@[g]@)
                    == group_members(post, by, l0[g]) by {
                    lemma_members_push(pre, job@, by, l0[g]);
                    if g == p {
                        assert(jobs_view(groups@[g]@) =~= jobs_view(g0[g]@).push(job@));
                    } else {
                        assert(groups@[g] == g0[g]);
                        assert(l0[g] != l0[p as int]);
                    }
                }
            }
        } else {
            let mut members: Vec<CronJob> = Vec::new();
            members.push(job.clone());
            labels.insert(p, key);
            groups.insert(p, members);
            proof {
                let l1 = labels.deep_view();
                assert(l1 =~= l0.insert(p as int, key@));
                assert(group_members(pre, by, key@).len() == 0);
                assert forall|label: Seq<char>|
                    #![trigger group_members(post, by, label)]
                    l1.contains(label) <==> group_members(post, by, label).len() > 0 by {
                    lemma_members_push(pre, job@, by, label);
                    if l0.contains(label) {
                        let k = choose|k: int| 0 <= k < l0.len() && l0[k] == label;
                        if k < p {
                            assert(l1[k] == label);
                        } else {
                            assert(l1[k + 1] == label);
                        }
                    }
                    if label == key@ {
                        assert(l1[p as int] == label);
                    }
                    if l1.contains(label) {
                        let k = choose|k: int| 0 <= k < l1.len() && l1[k] == label;
                        if k < p {
                            assert(l0[k] == label);
                        } else if k > p {
                            assert(l0[k - 1] == label);
                        }
                    }
                }
                assert forall|g: int| 0 <= g < groups@.len() implies jobs_view(#[trigger] groups@[g]@)
                    == group_members(post, by, l1[g]) by {
                    lemma_members_push(pre, job@, by, l1[g]);
                    if g == p {
                        assert(group_members(pre, by, key@) =~= Seq::<CronJobView>::empty());
                        assert(jobs_view(groups@[g]@) =~= seq![job@]);
                    } else if g < p {
                        assert(groups@[g] == g0[g]);
                        assert(l1[g] == l0[g]);
                        assert(l1[g] != l1[p as int]);
                    } else {
                        assert(groups@[g] == g0[g - 1]);
                        assert(l1[g] == l0[g - 1]);
                        assert(l1[g] != l1[p as int]);
                    }
                }
            }
        }
        i = i + 1;
    }
    proof {
        assert(jobs@.take(jobs@.len() as int) =~= jobs@);
    }
    let mut out: Vec<(String, Vec<CronJob>)> = Vec::new();
    let mut k: usize = 0;
    while k < labels.len()
        invariant
            k <= labels@.len(),
            labels@.len() == groups@.len(),
            out@.len() == k,
            forall|g: int|
                0 <= g < k ==> (#[trigger] out@[g]).0@ == labels.deep_view()[g] && jobs_view(out@[g].1@)
                    == jobs_view(groups@[g]@),
        decreases labels@.len() - k,
    {
        out.push((labels[k].clone(), clone_jobs(groups[k].as_slice())));
        k = k + 1;
    }
    proof {
        assert(out@.map_values(|g: (String, Vec<CronJob>)| g.0@) =~= labels.deep_view());
    }
    out
}

// ─── Page state ─────────────────────────────────────────────────────────────

/// The mathematical content of a [`JobFilter`].
pub struct JobFilterView {
    pub query: Seq<char>,
    pub status: StatusFacet,
    pub machine: MachineChoice,
    pub handler: Option<Seq<char>>,
}

impl View for JobFilter {
    type V = JobFilterView;

    open spec fn view(&self) -> JobFilterView {
        JobFilterView { query: self.query@, status: self.status, machine: self.machine@, handler: self.handler@ }
    }
}

/// The filter that narrows nothing.
pub open spec fn open_filter() -> JobFilterView {
    JobFilterView { query: seq![], status: StatusFacet::All, machine: MachineChoice::Any, handler: None }
}

/// Which page of the cron-jobs tab is showing.
#[derive(Debug, PartialEq)]
pub enum CPage {
    List,
    New,
    Logs(String),
}

/// The mathematical content of a [`CPage`].
pub enum CPageView {
    List,
    New,
    Logs(Seq<char>),
}

impl View for CPage {
    type V = CPageView;

    open spec fn view(&self) -> CPageView {
        match self {
            CPage::List => CPageView::List,
            CPage::New => CPageView::New,
            CPage::Logs(id) => CPageView::Logs(id@),
        }
    }
}

impl Clone for CPage {
    fn clone(&self) -> (r: Self)
        ensures
            r@ == self@,
    {
        match self {
            CPage::List => CPage::List,
            CPage::New => CPage::New,
            CPage::Logs(id) => CPage::Logs(id.clone()),
        }
    }
}

/// How the list page presents jobs: a table, a calendar, or a single-day timeline.
#[derive(Debug, Clone, Copy, PartialEq, Eq, Structural)]
pub enum CView {
    Table,
    Calendar,
    Day,
}

impl Default for CView {
    fn default() -> (r: Self)
        ensures
            r == CView::Table,
    {
        CView::Table
    }
}

/// The dialog open over the page, if any.
#[derive(Debug, PartialEq)]
pub enum CModal {
    Closed,
    Edit(String),
    ConfirmDelete { id: String, handler: String },
    ConfirmBulkDelete { count: usize },
}

/// The mathematical content of a [`CModal`].
pub enum CModalView {
    Closed,
    Edit(Seq<char>),
    ConfirmDelete { id: Seq<char>, handler: Seq<char> },
    ConfirmBulkDelete { count: usize },
}

impl View for CModal {
    type V = CModalView;

    open spec fn view(&self) -> CModalView {
        match self {
            CModal::Closed => CModalView::Closed,
            CModal::Edit(id) => CModalView::Edit(id@),
            CModal::ConfirmDelete { id, handler } => CModalView::ConfirmDelete { id: id@, handler: handler@ },
            CModal::ConfirmBulkDelete { count } => CModalView::ConfirmBulkDelete { count: *count },
        }
    }
}

impl Clone for CModal {
    fn clone(&self) -> (r: Self)
        ensures
            r@ == self@,
    {
        match self {
            CModal::Closed => CModal::Closed,
            CModal::Edit(id) => CModal::Edit(id.clone()),
            CModal::ConfirmDelete { id, handler } => CModal::ConfirmDelete { id: id.clone(), handler: handler.clone() },
            CModal::ConfirmBulkDelete { count } => CModal::ConfirmBulkDelete { count: *count },
        }
    }
}

/// How a row-selection click changes the selection, from the modifier keys held.
#[derive(Debug, Clone, Copy, PartialEq, Eq, Structural)]
pub enum SelectKind {
    /// Plain click: select only this row.
    Only,
    /// Cmd/Ctrl+click: toggle this row in or out of the selection.
    Toggle,
    /// Shift+click: add the rows from the anchor to this one.
    Range,
}

/// The cron-jobs page state. `selected` holds the ids of the selected jobs as a sorted
/// list without repeats (see [`CState::wf`]).
#[derive(Debug, PartialEq)]
pub struct CState {
    pub jobs: Vec<CronJob>,
    pub loading: bool,
    pub page: CPage,
    pub modal: CModal,
    pub view: CView,
    /// Ids of the selected jobs.
    pub selected: Vec<String>,
    /// Anchor row of a Shift+click range selection.
    pub select_anchor: Option<String>,
    /// The faceted filter applied to the list and day views.
    pub filter: JobFilter,
    /// The column the table is sorted by; `None` keeps the natural order.
    pub sort_col: Option<SortCol>,
    pub sort_dir: SortDir,
    pub group_by: GroupBy,
    /// This machine's name as the daemon resolved it.
    pub current_machine: Option<String>,
}

/// The mathematical content of a [`CState`]: the selection is a set of ids.
pub struct CStateView {
    pub jobs: Seq<CronJobView>,
    pub loading: bool,
    pub page: CPageView,
    pub modal: CModalView,
    pub view: CView,
    pub selected: Set<Seq<char>>,
    pub select_anchor: Option<Seq<char>>,
    pub filter: JobFilterView,
    pub sort_col: Option<SortCol>,
    pub sort_dir: SortDir,
    pub group_by: GroupBy,
    pub current_machine: Option<Seq<char>>,
}

impl View for CState {
    type V = CStateView;

    open spec fn view(&self) -> CStateView {
        CStateView {
            jobs: jobs_view(self.jobs@),
            loading: self.loading,
            page: self.page@,
            modal: self.modal@,
            view: self.view,
            selected: self.selected.deep_view().to_set(),
            select_anchor: opt_text(self.select_anchor),
            filter: self.filter@,
            sort_col: self.sort_col,
            sort_dir: self.sort_dir,
            group_by: self.group_by,
            current_machine: opt_text(self.current_machine),
        }
    }
}

impl CState {
    /// Well-formedness: the selection list is sorted and holds no id twice.
    pub open spec fn wf(&self) -> bool {
        strictly_sorted(self.selected.deep_view())
    }
}

/// The state a page starts in: loading, nothing selected, no filter or sort.
pub open spec fn initial_state() -> CStateView {
    CStateView {
        jobs: seq![],
        loading: true,
        page: CPageView::List,
        modal: CModalView::Closed,
        view: CView::Table,
        selected: Set::empty(),
        select_anchor: None,
        filter: open_filter(),
        sort_col: None,
        sort_dir: SortDir::Asc,
        group_by: GroupBy::Flat,
        current_machine: None,
    }
}

impl Default for CState {
    fn default() -> (r: Self)
        ensures
            r.wf(),
            r@ == initial_state(),
    {
        let r = CState {
            jobs: Vec::new(),
            loading: true,
            page: CPage::List,
            modal: CModal::Closed,
            view: CView::Table,
            selected: Vec::new(),
            select_anchor: None,
            filter: JobFilter::default(),
            sort_col: None,
            sort_dir: SortDir::Asc,
            group_by: GroupBy::Flat,
            current_machine: None,
        };
        proof {
            assert(r.selected.deep_view().to_set() =~= Set::<Seq<char>>::empty());
            assert(jobs_view(r.jobs@) =~= Seq::<CronJobView>::empty());
            assert(r.filter@.query =~= Seq::<char>::empty());
        }
        r
    }
}

impl Clone for CState {
    fn clone(&self) -> (r: Self)
        ensures
            r@ == self@,
            r.selected.deep_view() == self.selected.deep_view(),
    {
        CState {
            jobs: clone_jobs(self.jobs.as_slice()),
            loading: self.loading,
            page: self.page.clone(),
            modal: self.modal.clone(),
            view: self.view,
            selected: clone_strings(&self.selected),
            select_anchor: clone_opt_string(&self.select_anchor),
            filter: self.filter.clone(),
            sort_col: self.sort_col,
            sort_dir: self.sort_dir,
            group_by: self.group_by,
            current_machine: clone_opt_string(&self.current_machine),
        }
    }
}

/// An event on the cron-jobs page.
pub enum CAction {
    Loaded(Vec<CronJob>),
    GoToNew,
    GoToList,
    GoToLogs(String),
    OpenEdit(String),
    OpenConfirmDelete { id: String, handler: String },
    OpenConfirmBulkDelete,
    CloseModal,
    SetView(CView),
    Upsert(CronJob),
    Remove(String),
    RemoveMany(Vec<String>),
    /// A selection click on the job with this id, read per `kind`.
    SelectJob { id: String, kind: SelectKind },
    /// Select exactly these (visible) ids.
    SelectAll(Vec<String>),
    ClearSelection,
    SetQuery(String),
    SetStatus(StatusFacet),
    SetMachineFacet(MachineFacet),
    SetHandlerFacet(HandlerFacet),
    ClearFilters,
    /// Sort by a column; picking the active column again reverses the direction.
    SetSort(SortCol),
    SetGroupBy(GroupBy),
    /// The daemon resolved this machine's name; the machine facet narrows to it.
    CurrentMachineLoaded(String),
}

/// The ids of a job list, in order.
pub open spec fn job_ids(jobs: Seq<CronJobView>) -> Seq<Seq<char>> {
    jobs.map_values(|j: CronJobView| j.id)
}

/// `jobs` with `job` in place of the first job with its id, or appended when none has it.
pub open spec fn upserted(jobs: Seq<CronJobView>, job: CronJobView) -> Seq<CronJobView> {
    match job_ids(jobs).index_of_first(job.id) {
        Some(i) => jobs.update(i, job),
        None => jobs.push(job),
    }
}

/// The jobs of `jobs` whose id is not in `gone`, in order.
pub open spec fn kept_jobs(jobs: Seq<CronJobView>, gone: Set<Seq<char>>) -> Seq<CronJobView> {
    jobs.filter(|j: CronJobView| !gone.contains(j.id))
}

/// The opposite sort direction.
pub open spec fn flipped(d: SortDir) -> SortDir {
    match d {
        SortDir::Asc => SortDir::Desc,
        SortDir::Desc => SortDir::Asc,
    }
}

/// The selection after a Shift+click on `id`: every row from the anchor (or `id` itself
/// when there is none) to `id`, in table order, joins the selection; when either end is
/// not a loaded job only `id` joins.
pub open spec fn range_selection(s: CStateView, id: Seq<char>) -> Set<Seq<char>> {
    let anchor = match s.select_anchor {
        Some(a) => a,
        None => id,
    };
    let ids = job_ids(s.jobs);
    match (ids.index_of_first(anchor), ids.index_of_first(id)) {
        (Some(a), Some(b)) => {
            let lo = if a <= b { a } else { b };
            let hi = if a <= b { b } else { a };
            s.selected + ids.subrange(lo, hi + 1).to_set()
        },
        _ => s.selected.insert(id),
    }
}

/// The page state after `a`.
pub open spec fn c_step(s: CStateView, a: CAction) -> CStateView {
    match a {
        CAction::Loaded(jobs) => {
            let ids = job_ids(jobs_view(jobs@)).to_set();
            CStateView {
                jobs: jobs_view(jobs@),
                loading: false,
                selected: s.selected.intersect(ids),
                select_anchor: match s.select_anchor {
                    Some(x) => if ids.contains(x) {
                        Some(x)
                    } else {
                        None
                    },
                    None => None,
                },
                ..s
            }
        },
        CAction::GoToNew => CStateView { page: CPageView::New, ..s },
        CAction::GoToList => CStateView { page: CPageView::List, ..s },
        CAction::GoToLogs(id) => CStateView { page: CPageView::Logs(id@), ..s },
        CAction::OpenEdit(id) => CStateView { modal: CModalView::Edit(id@), ..s },
        CAction::OpenConfirmDelete { id, handler } => CStateView {
            modal: CModalView::ConfirmDelete { id: id@, handler: handler@ },
            ..s
        },
        CAction::OpenConfirmBulkDelete => CStateView {
            modal: CModalView::ConfirmBulkDelete { count: s.selected.len() as usize },
            ..s
        },
        CAction::CloseModal => CStateView { modal: CModalView::Closed, ..s },
        CAction::SetView(v) => CStateView { view: v, ..s },
        CAction::Upsert(job) => CStateView { jobs: upserted(s.jobs, job@), ..s },
        CAction::Remove(id) => CStateView {
            jobs: kept_jobs(s.jobs, set![id@]),
            selected: s.selected.remove(id@),
            select_anchor: if s.select_anchor == Some(id@) {
                None
            } else {
                s.select_anchor
            },
            ..s
        },
        CAction::RemoveMany(ids) => {
            let gone = ids.deep_view().to_set();
            CStateView {
                jobs: kept_jobs(s.jobs, gone),
                selected: s.selected.difference(gone),
                select_anchor: match s.select_anchor {
                    Some(x) => if gone.contains(x) {
                        None
                    } else {
                        Some(x)
                    },
                    None => None,
                },
                ..s
            }
        },
        CAction::SelectJob { id, kind } => match kind {
            SelectKind::Only => CStateView { selected: set![id@], select_anchor: Some(id@), ..s },
            SelectKind::Toggle => CStateView {
                selected: if s.selected.contains(id@) {
                    s.selected.remove(id@)
                } else {
                    s.selected.insert(id@)
                },
                select_anchor: Some(id@),
                ..s
            },
            SelectKind::Range => CStateView { selected: range_selection(s, id@), ..s },
        },
        CAction::SelectAll(ids) => CStateView { selected: ids.deep_view().to_set(), ..s },
        CAction::ClearSelection => CStateView { selected: Set::empty(), select_anchor: None, ..s },
        CAction::SetQuery(q) => CStateView { filter: JobFilterView { query: q@, ..s.filter }, ..s },
        CAction::SetStatus(f) => CStateView { filter: JobFilterView { status: f, ..s.filter }, ..s },
        CAction::SetMachineFacet(m) => CStateView { filter: JobFilterView { machine: m@, ..s.filter }, ..s },
        CAction::SetHandlerFacet(h) => CStateView { filter: JobFilterView { handler: h@, ..s.filter }, ..s },
        CAction::ClearFilters => CStateView { filter: open_filter(), ..s },
        CAction::SetSort(col) => if s.sort_col == Some(col) {
            CStateView { sort_dir: flipped(s.sort_dir), ..s }
        } else {
            CStateView { sort_col: Some(col), sort_dir: SortDir::Asc, ..s }
        },
        CAction::SetGroupBy(by) => CStateView { group_by: by, ..s },
        CAction::CurrentMachineLoaded(name) => CStateView {
            current_machine: Some(name@),
            filter: JobFilterView { machine: MachineChoice::Machine(name@), ..s.filter },
            ..s
        },
    }
}

/// The ids of `jobs`, in order.
fn ids_of(jobs: &[CronJob]) -> (r: Vec<String>)
    ensures
        r.deep_view() == job_ids(jobs_view(jobs@)),
{
    let mut out: Vec<String> = Vec::new();
    let mut i: usize = 0;
    while i < jobs.len()
        invariant
            i <= jobs@.len(),
            out@.len() == i,
            forall|k: int| 0 <= k < i ==> (#[trigger] out@[k])@ == jobs@[k].id@,
        decreases jobs@.len() - i,
    {
        out.push(jobs[i].id.clone());
        i = i + 1;
    }
    proof {
        assert(out.deep_view() =~= job_ids(jobs_view(jobs@)));
    }
    out
}

/// The position of the first job of `jobs` with id `id`.
pub fn job_position(jobs: &[CronJob], id: &str) -> (r: Option<usize>)
    ensures
        match r {
            Some(i) => job_ids(jobs_view(jobs@)).index_of_first(id@) == Some(i as int),
            None => job_ids(jobs_view(jobs@)).index_of_first(id@) is None,
        },
{
    let ghost ids = job_ids(jobs_view(jobs@));
    proof {
        ids.index_of_first_ensures(id@);
    }
    let mut i: usize = 0;
    while i < jobs.len()
        invariant
            i <= jobs@.len(),
            ids == job_ids(jobs_view(jobs@)),
            forall|k: int| 0 <= k < i ==> ids[k] != id@,
        decreases jobs@.len() - i,
    {
        if same_text(jobs[i].id.as_str(), id) {
            proof {
                assert(ids[i as int] == id@);
                assert(ids.contains(id@));
                ids.index_of_first_ensures(id@);
            }
            return Some(i);
        }
        i = i + 1;
    }
    proof {
        ids.index_of_first_ensures(id@);
    }
    None
}

/// The jobs of `jobs` whose id `gone` does not list, in order.
fn jobs_except(jobs: &[CronJob], gone: &Vec<String>) -> (r: Vec<CronJob>)
    ensures
        jobs_view(r@) == kept_jobs(jobs_view(jobs@), gone.deep_view().to_set()),
{
    let ghost g = gone.deep_view().to_set();
    let mut out: Vec<CronJob> = Vec::new();
    let mut i: usize = 0;
    while i < jobs.len()
        invariant
            i <= jobs@.len(),
            g == gone.deep_view().to_set(),
            jobs_view(out@) == kept_jobs(jobs_view(jobs@.take(i as int)), g),
        decreases jobs@.len() - i,
    {
        let ghost before = out@;
        let keep = !list_has(gone, jobs[i].id.as_str());
        if keep {
            out.push(jobs[i].clone());
        }
        proof {
            let pre = jobs_view(jobs@.take(i as int));
            let post = jobs_view(jobs@.take(i + 1));
            assert(post =~= pre.push(jobs@[i as int]@));
            assert(post.drop_last() =~= pre);
            reveal(Seq::filter);
            if keep {
                assert(jobs_view(out@) =~= jobs_view(before).push(jobs@[i as int]@));
            } else {
                assert(jobs_view(out@) =~= jobs_view(before));
            }
        }
        i = i + 1;
    }
    proof {
        assert(jobs@.take(jobs@.len() as int) =~= jobs@);
    }
    out
}

/// Adds the ids of `jobs[lo..=hi]` to the sorted set `sel`.
fn add_id_range(sel: &mut Vec<String>, jobs: &[CronJob], lo: usize, hi: usize)
    requires
        strictly_sorted(old(sel).deep_view()),
        lo <= hi < jobs@.len(),
    ensures
        strictly_sorted(final(sel).deep_view()),
        final(sel).deep_view().to_set() == old(sel).deep_view().to_set() + job_ids(jobs_view(jobs@)).subrange(
            lo as int,
            hi + 1,
        ).to_set(),
{
    let ghost sel0 = sel.deep_view().to_set();
    let ghost ids = job_ids(jobs_view(jobs@));
    let mut k: usize = lo;
    proof {
        assert(sel.deep_view().to_set() =~= sel0 + ids.subrange(lo as int, lo as int).to_set());
    }
    while k <= hi
        invariant
            lo <= k <= hi + 1,
            hi < jobs@.len(),
            ids == job_ids(jobs_view(jobs@)),
            strictly_sorted(sel.deep_view()),
            sel.deep_view().to_set() == sel0 + ids.subrange(lo as int, k as int).to_set(),
        decreases hi + 1 - k,
    {
        let ghost before = sel.deep_view();
        insert_sorted(sel, &jobs[k].id);
        proof {
            assert(ids[k as int] == jobs@[k as int].id@);
            assert(ids.subrange(lo as int, k + 1) =~= ids.subrange(lo as int, k as int).push(ids[k as int]));
            assert(sel.deep_view().to_set() =~= before.to_set().insert(ids[k as int]));
            assert(sel.deep_view().to_set() =~= sel0 + ids.subrange(lo as int, k + 1).to_set()) by {
                assert forall|x: Seq<char>| #[trigger] ids.subrange(lo as int, k + 1).contains(x) <==> (ids.subrange(
                    lo as int,
                    k as int,
                ).contains(x) || x == ids[k as int]) by {
                    let a = ids.subrange(lo as int, k as int);
                    let b = ids.subrange(lo as int, k + 1);
                    if b.contains(x) {
                        let j = choose|j: int| 0 <= j < b.len() && b[j] == x;
                        if j < a.len() {
                            assert(a[j] == x);
                        }
                    }
                    if a.contains(x) {
                        let j = choose|j: int| 0 <= j < a.len() && a[j] == x;
                        assert(b[j] == x);
                    }
                    if x == ids[k as int] {
                        assert(b[b.len() - 1] == x);
                    }
                }
            }
        }
        k = k + 1;
    }
}

proof fn lemma_singleton_set(x: Seq<char>)
    ensures
        seq![x].to_set() == set![x],
{
    assert(seq![x][0] == x);
    assert(seq![x].to_set() =~= set![x]);
}

/// A strictly sorted list holds no string twice, so its set has its length.
proof fn lemma_sorted_set_len(v: Seq<Seq<char>>)
    requires
        strictly_sorted(v),
    ensures
        v.to_set().len() == v.len(),
{
    assert forall|i: int, j: int| 0 <= i < v.len() && 0 <= j < v.len() && i != j implies v[i] != v[j] by {
        if i < j {
            assert(text_le(v[i], v[j]) && v[i] != v[j]);
        } else {
            assert(text_le(v[j], v[i]) && v[j] != v[i]);
        }
    }
    v.unique_seq_to_set();
}

impl CState {
    /// The page state after `action`. A selection that was not kept sorted is sorted
    /// first; it selects the same ids.
    pub fn reduce(self, action: CAction) -> (r: CState)
        ensures
            r.wf(),
            r@ == c_step(self@, action),
    {
        let ghost before = self@;
        let mut state = self;
        let sorted = sorted_set_of(&state.selected);
        let ghost old_sel = state.selected.deep_view();
        state.selected = sorted;
        proof {
            assert(state.selected.deep_view().to_set() =~= old_sel.to_set());
            assert(state@ == before);
        }
        state.reduce_sorted(action)
    }

    /// The page state after `action`, from a state whose selection is kept sorted.
    fn reduce_sorted(self, action: CAction) -> (r: CState)
        requires
            self.wf(),
        ensures
            r.wf(),
            r@ == c_step(self@, action),
    {
        let ghost s0 = self@;
        let ghost sel0 = self.selected.deep_view();
        let mut s = self;
        match action {
            CAction::Loaded(jobs) => {
                let ids = ids_of(jobs.as_slice());
                retain_members(&mut s.selected, &ids, true);
                let drop_anchor = match &s.select_anchor {
                    Some(a) => !list_has(&ids, a.as_str()),
                    None => false,
                };
                if drop_anchor {
                    s.select_anchor = None;
                }
                s.jobs = jobs;
                s.loading = false;
                proof {
                    assert(s.selected.deep_view().to_set() =~= s0.selected.intersect(ids.deep_view().to_set()));
                }
            },
            CAction::GoToNew => s.page = CPage::New,
            CAction::GoToList => s.page = CPage::List,
            CAction::GoToLogs(id) => s.page = CPage::Logs(id),
            CAction::OpenEdit(id) => s.modal = CModal::Edit(id),
            CAction::OpenConfirmDelete { id, handler } => s.modal = CModal::ConfirmDelete { id, handler },
            CAction::OpenConfirmBulkDelete => {
                proof {
                    lemma_sorted_set_len(sel0);
                }
                s.modal = CModal::ConfirmBulkDelete { count: s.selected.len() };
            },
            CAction::CloseModal => s.modal = CModal::Closed,
            CAction::SetView(view) => s.view = view,
            CAction::Upsert(job) => {
                match job_position(s.jobs.as_slice(), job.id.as_str()) {
                    Some(i) => {
                        proof {
                            job_ids(jobs_view(s.jobs@)).index_of_first_ensures(job.id@);
                        }
                        let ghost j0 = s.jobs@;
                        let ghost jv = job@;
                        s.jobs[i] = job;
                        proof {
                            assert(jobs_view(s.jobs@) =~= jobs_view(j0).update(i as int, jv));
                        }
                    },
                    None => {
                        let ghost j0 = s.jobs@;
                        let ghost jv = job@;
                        s.jobs.push(job);
                        proof {
                            assert(jobs_view(s.jobs@) =~= jobs_view(j0).push(jv));
                        }
                    },
                }
            },
            CAction::Remove(id) => {
                let gone = vec![id];
                s.jobs = jobs_except(s.jobs.as_slice(), &gone);
                remove_sorted(&mut s.selected, &gone[0]);
                let drop_anchor = match &s.select_anchor {
                    Some(a) => same_text(a.as_str(), gone[0].as_str()),
                    None => false,
                };
                if drop_anchor {
                    s.select_anchor = None;
                }
                proof {
                    assert(gone.deep_view() =~= seq![gone@[0]@]);
                    lemma_singleton_set(gone@[0]@);
                    assert(s.selected.deep_view().to_set() =~= s0.selected.remove(gone@[0]@));
                }
            },
            CAction::RemoveMany(ids) => {
                s.jobs = jobs_except(s.jobs.as_slice(), &ids);
                retain_members(&mut s.selected, &ids, false);
                let drop_anchor = match &s.select_anchor {
                    Some(a) => list_has(&ids, a.as_str()),
                    None => false,
                };
                if drop_anchor {
                    s.select_anchor = None;
                }
                proof {
                    assert(s.selected.deep_view().to_set() =~= s0.selected.difference(ids.deep_view().to_set()));
                }
            },
            CAction::SelectJob { id, kind } => match kind {
                SelectKind::Only => {
                    let ghost idv = id@;
                    let mut only: Vec<String> = Vec::new();
                    only.push(id.clone());
                    s.selected = only;
                    s.select_anchor = Some(id);
                    proof {
                        assert(s.selected.deep_view() =~= seq![idv]);
                        lemma_singleton_set(idv);
                    }
                },
                SelectKind::Toggle => {
                    if !remove_sorted(&mut s.selected, &id) {
                        insert_sorted(&mut s.selected, &id);
                    }
                    proof {
                        if s0.selected.contains(id@) {
                            assert(s.selected.deep_view().to_set() =~= s0.selected.remove(id@));
                        } else {
                            assert(s.selected.deep_view().to_set() =~= s0.selected.insert(id@));
                        }
                    }
                    s.select_anchor = Some(id);
                },
                SelectKind::Range => {
                    let anchor = match &s.select_anchor {
                        Some(a) => a.clone(),
                        None => id.clone(),
                    };
                    let pa = job_position(s.jobs.as_slice(), anchor.as_str());
                    let pb = job_position(s.jobs.as_slice(), id.as_str());
                    match (pa, pb) {
                        (Some(a), Some(b)) => {
                            proof {
                                let ids = job_ids(jobs_view(s.jobs@));
                                ids.index_of_first_ensures(anchor@);
                                ids.index_of_first_ensures(id@);
                            }
                            let lo = if a <= b {
                                a
                            } else {
                                b
                            };
                            let hi = if a <= b {
                                b
                            } else {
                                a
                            };
                            add_id_range(&mut s.selected, s.jobs.as_slice(), lo, hi);
                        },
                        _ => {
                            insert_sorted(&mut s.selected, &id);
                            proof {
                                assert(s.selected.deep_view().to_set() =~= s0.selected.insert(id@));
                            }
                        },
                    }
                },
            },
            CAction::SelectAll(ids) => {
                s.selected = sorted_set_of(&ids);
                proof {
                    assert(s.selected.deep_view().to_set() =~= ids.deep_view().to_set());
                }
            },
            CAction::ClearSelection => {
                s.selected = Vec::new();
                s.select_anchor = None;
                proof {
                    assert(s.selected.deep_view().to_set() =~= Set::<Seq<char>>::empty());
                }
            },
            CAction::SetQuery(q) => s.filter.query = q,
            CAction::SetStatus(status) => s.filter.status = status,
            CAction::SetMachineFacet(m) => s.filter.machine = m,
            CAction::SetHandlerFacet(h) => s.filter.handler = h,
            CAction::ClearFilters => {
                s.filter = JobFilter::default();
                proof {
                    assert(s.filter@.query =~= Seq::<char>::empty());
                }
            },
            CAction::SetSort(col) => {
                if s.sort_col == Some(col) {
                    s.sort_dir = s.sort_dir.flip();
                } else {
                    s.sort_col = Some(col);
                    s.sort_dir = SortDir::Asc;
                }
            },
            CAction::SetGroupBy(by) => s.group_by = by,
            CAction::CurrentMachineLoaded(name) => {
                s.current_machine = Some(name.clone());
                s.filter.machine = MachineFacet::Machine(name);
            },
        }
        s
    }
}

// ─── Laws ───────────────────────────────────────────────────────────────────

/// Every status facet decodes back from its own token.
pub proof fn lemma_status_token_roundtrip(f: StatusFacet)
    ensures
        status_from_token(status_token(f)) == f,
{
    reveal_strlit("all");
    reveal_strlit("enabled");
    reveal_strlit("disabled");
    reveal_strlit("due");
    assert("all"@.len() != "enabled"@.len() && "all"@.len() != "disabled"@.len() && "all"@[0] != "due"@[0]);
    assert("enabled"@.len() != "disabled"@.len() && "enabled"@.len() != "due"@.len());
    assert("disabled"@.len() != "due"@.len());
}

/// Every machine facet decodes back from its own select value, unless it names a machine
/// whose name is itself one of the two reserved values.
pub proof fn lemma_machine_value_roundtrip(f: MachineChoice)
    requires
        f matches MachineChoice::Machine(m) ==> m != machine_any_token() && m != machine_unassigned_token(),
    ensures
        machine_from_value(machine_value(f)) == f,
{
    reveal_strlit("\u{0}any");
    reveal_strlit("\u{0}unassigned");
    assert("\u{0}any"@.len() != "\u{0}unassigned"@.len());
}

/// Every handler facet decodes back from its own select value, unless it names a handler
/// whose name is the reserved "any" value.
pub proof fn lemma_handler_value_roundtrip(h: Option<Seq<char>>)
    requires
        h matches Some(name) ==> name != handler_any_token(),
    ensures
        handler_from_value(handler_value(h)) == h,
{
}

/// Every group-by dimension decodes back from its own token.
pub proof fn lemma_group_token_roundtrip(g: GroupBy)
    ensures
        group_from_token(group_token(g)) == g,
{
    reveal_strlit("none");
    reveal_strlit("handler");
    reveal_strlit("machine");
    reveal_strlit("status");
    assert("none"@.len() != "handler"@.len() && "none"@.len() != "machine"@.len() && "none"@.len() != "status"@.len());
    assert("handler"@[0] != "machine"@[0] && "handler"@.len() != "status"@.len());
    assert("machine"@.len() != "status"@.len());
}

/// Reversing a sort direction changes it, and reversing it twice restores it.
pub proof fn lemma_flip_involution(d: SortDir)
    ensures
        flipped(d) != d,
        flipped(flipped(d)) == d,
{
}

/// The filter that narrows nothing keeps every job, whatever the next fires are.
pub proof fn lemma_open_filter_keeps_all(
    jobs: Seq<CronJobView>,
    f: JobFilter,
    nexts: Seq<Option<i64>>,
    now: i64,
    window: i64,
)
    requires
        f@ == open_filter(),
        nexts.len() == jobs.len(),
    ensures
        filtered(jobs, f, nexts, now, window) == jobs,
    decreases jobs.len(),
{
    if jobs.len() > 0 {
        lemma_open_filter_keeps_all(jobs.drop_last(), f, nexts.drop_last(), now, window);
        assert(trim(f.query@).len() == 0);
        assert(jobs.drop_last().push(jobs.last()) =~= jobs);
    }
}

/// The free-text query searches a job's id, handler, schedule, description and metadata:
/// under a filter that narrows by nothing else, a blank query keeps the job, and so does a
/// query whose lowercase form occurs in the lowercase form of any of those fields.
pub proof fn lemma_query_searches_job_fields(f: JobFilter, j: CronJobView, due: bool)
    requires
        f.status == StatusFacet::All,
        f.machine@ == MachineChoice::Any,
        f.handler@ is None,
    ensures
        ({
            let n = unicode_lowercase(trim(f.query@));
            trim(f.query@).len() == 0 || contains_seq(unicode_lowercase(j.id), n) || contains_seq(
                unicode_lowercase(j.handler),
                n,
            ) || contains_seq(unicode_lowercase(j.schedule), n) || (j.schedule_description matches Some(d)
                && contains_seq(unicode_lowercase(d), n)) || contains_seq(unicode_lowercase(j.metadata), n)
        }) ==> filter_admits(f, j, due),
{
    let n = unicode_lowercase(trim(f.query@));
    let desc = match j.schedule_description {
        Some(d) => d,
        None => Seq::<char>::empty(),
    };
    let (id, h, sc, de, me) = (
        unicode_lowercase(j.id),
        unicode_lowercase(j.handler),
        unicode_lowercase(j.schedule),
        unicode_lowercase(desc),
        unicode_lowercase(j.metadata),
    );
    let sp = " "@;
    let hay = job_haystack(j);
    assert(hay == id + sp + h + sp + sc + sp + de + sp + me);
    if trim(f.query@).len() > 0 {
        if contains_seq(id, n) {
            lemma_contains_within(Seq::<char>::empty(), id, sp + h + sp + sc + sp + de + sp + me, n);
            assert(Seq::<char>::empty() + id + (sp + h + sp + sc + sp + de + sp + me) =~= hay);
        } else if contains_seq(h, n) {
            lemma_contains_within(id + sp, h, sp + sc + sp + de + sp + me, n);
            assert(id + sp + h + (sp + sc + sp + de + sp + me) =~= hay);
        } else if contains_seq(sc, n) {
            lemma_contains_within(id + sp + h + sp, sc, sp + de + sp + me, n);
            assert(id + sp + h + sp + sc + (sp + de + sp + me) =~= hay);
        } else if j.schedule_description is Some && contains_seq(de, n) {
            lemma_contains_within(id + sp + h + sp + sc + sp, de, sp + me, n);
            assert(id + sp + h + sp + sc + sp + de + (sp + me) =~= hay);
        } else if contains_seq(me, n) {
            lemma_contains_within(id + sp + h + sp + sc + sp + de + sp, me, Seq::<char>::empty(), n);
            assert(id + sp + h + sp + sc + sp + de + sp + me + Seq::<char>::empty() =~= hay);
        }
    }
}

/// Clicking the active sort column twice restores the page state.
pub proof fn lemma_sort_same_column_twice(s: CStateView, c: SortCol)
    requires
        s.sort_col == Some(c),
    ensures
        c_step(c_step(s, CAction::SetSort(c)), CAction::SetSort(c)) == s,
{
}

/// Clicking a column other than the active one sorts by it, ascending.
pub proof fn lemma_sort_new_column_ascends(s: CStateView, c: SortCol)
    requires
        s.sort_col != Some(c),
    ensures
        c_step(s, CAction::SetSort(c)).sort_col == Some(c),
        c_step(s, CAction::SetSort(c)).sort_dir == SortDir::Asc,
{
}

/// After a reload the selection and the anchor only name jobs that were loaded.
pub proof fn lemma_loaded_selection_within(s: CStateView, jobs: Vec<CronJob>)
    ensures
        forall|x: Seq<char>|
            #[trigger] c_step(s, CAction::Loaded(jobs)).selected.contains(x) ==> job_ids(jobs_view(jobs@)).contains(x),
        c_step(s, CAction::Loaded(jobs)).select_anchor matches Some(a) ==> job_ids(jobs_view(jobs@)).contains(a),
{
}

/// After removing a job, no listed job, selected id or anchor is its id.
pub proof fn lemma_remove_forgets(s: CStateView, id: String)
    ensures
        !job_ids(c_step(s, CAction::Remove(id)).jobs).contains(id@),
        !c_step(s, CAction::Remove(id)).selected.contains(id@),
        c_step(s, CAction::Remove(id)).select_anchor != Some(id@),
{
    let gone = set![id@];
    let kept = kept_jobs(s.jobs, gone);
    let pred = |j: CronJobView| !gone.contains(j.id);
    if job_ids(kept).contains(id@) {
        let i = choose|i: int| 0 <= i < job_ids(kept).len() && job_ids(kept)[i] == id@;
        s.jobs.lemma_filter_pred(pred, i);
        assert(false);
    }
}

/// Toggling the same job twice restores the selection.
pub proof fn lemma_toggle_twice(s: CStateView, id: String)
    ensures
        c_step(
            c_step(s, CAction::SelectJob { id, kind: SelectKind::Toggle }),
            CAction::SelectJob { id, kind: SelectKind::Toggle },
        ).selected == s.selected,
{
    let once = c_step(s, CAction::SelectJob { id, kind: SelectKind::Toggle });
    let twice = c_step(once, CAction::SelectJob { id, kind: SelectKind::Toggle });
    assert(twice.selected =~= s.selected);
}

/// Upserting a job lists it, and adds a row exactly when no listed job had its id.
pub proof fn lemma_upsert_lists_job(jobs: Seq<CronJobView>, job: CronJobView)
    ensures
        upserted(jobs, job).contains(job),
        upserted(jobs, job).len() == jobs.len() + if job_ids(jobs).contains(job.id) {
            0int
        } else {
            1int
        },
{
    job_ids(jobs).index_of_first_ensures(job.id);
    match job_ids(jobs).index_of_first(job.id) {
        Some(i) => {
            assert(upserted(jobs, job)[i] == job);
        },
        None => {
            assert(upserted(jobs, job)[jobs.len() as int] == job);
        },
    }
}


/// Upserting into a list whose ids are distinct replaces the job with the same id in place,
/// or appends the job when no listed job has its id; the ids stay distinct, and the
/// selection and its anchor stay as they were.
pub proof fn lemma_upsert_in_place(s: CStateView, job: CronJob)
    requires
        job_ids(s.jobs).no_duplicates(),
    ensures
        job_ids(c_step(s, CAction::Upsert(job)).jobs).no_duplicates(),
        forall|i: int|
            0 <= i < s.jobs.len() && (#[trigger] s.jobs[i]).id == job@.id ==> c_step(s, CAction::Upsert(job)).jobs
                == s.jobs.update(i, job@),
        !job_ids(s.jobs).contains(job@.id) ==> c_step(s, CAction::Upsert(job)).jobs == s.jobs.push(job@),
        c_step(s, CAction::Upsert(job)).selected == s.selected,
        c_step(s, CAction::Upsert(job)).select_anchor == s.select_anchor,
{
    let ids = job_ids(s.jobs);
    let out = c_step(s, CAction::Upsert(job)).jobs;
    ids.index_of_first_ensures(job@.id);
    match ids.index_of_first(job@.id) {
        Some(k) => {
            assert forall|i: int| 0 <= i < s.jobs.len() && (#[trigger] s.jobs[i]).id == job@.id implies out
                == s.jobs.update(i, job@) by {
                assert(ids[i] == job@.id);
                if i != k {
                    assert(ids[i] == ids[k]);
                }
            }
            assert(job_ids(out) =~= ids);
        },
        None => {
            assert(job_ids(out) =~= ids.push(job@.id));
            assert forall|a: int, b: int|
                0 <= a < job_ids(out).len() && 0 <= b < job_ids(out).len() && a != b implies job_ids(out)[a]
                != job_ids(out)[b] by {
                if a < ids.len() && b < ids.len() {
                } else if a < ids.len() {
                    assert(ids[a] == job_ids(out)[a]);
                    assert(ids.contains(ids[a]));
                } else if b < ids.len() {
                    assert(ids[b] == job_ids(out)[b]);
                    assert(ids.contains(ids[b]));
                }
            }
            assert forall|i: int| 0 <= i < s.jobs.len() && (#[trigger] s.jobs[i]).id == job@.id implies false by {
                assert(ids[i] == job@.id);
                assert(ids.contains(job@.id));
            }
        },
    }
}

/// How many jobs of `jobs` the sections `labels` under `by` hold together.
pub open spec fn section_total(jobs: Seq<CronJobView>, by: GroupBy, labels: Seq<Seq<char>>) -> nat
    decreases labels.len(),
{
    if labels.len() == 0 {
        0
    } else {
        section_total(jobs, by, labels.drop_last()) + group_members(jobs, by, labels.last()).len()
    }
}

/// How often `v` occurs in `labels`.
pub open spec fn occurrences(labels: Seq<Seq<char>>, v: Seq<char>) -> nat
    decreases labels.len(),
{
    if labels.len() == 0 {
        0
    } else {
        occurrences(labels.drop_last(), v) + if labels.last() == v {
            1nat
        } else {
            0nat
        }
    }
}

proof fn lemma_section_total_empty(by: GroupBy, labels: Seq<Seq<char>>)
    ensures
        section_total(Seq::<CronJobView>::empty(), by, labels) == 0,
    decreases labels.len(),
{
    if labels.len() > 0 {
        lemma_section_total_empty(by, labels.drop_last());
        reveal(Seq::filter);
    }
}

proof fn lemma_section_total_push(pre: Seq<CronJobView>, x: CronJobView, by: GroupBy, labels: Seq<Seq<char>>)
    ensures
        section_total(pre.push(x), by, labels) == section_total(pre, by, labels) + occurrences(labels, group_key_of(x, by)),
    decreases labels.len(),
{
    if labels.len() > 0 {
        lemma_section_total_push(pre, x, by, labels.drop_last());
        lemma_members_push(pre, x, by, labels.last());
    }
}

proof fn lemma_occurrences_once(labels: Seq<Seq<char>>, v: Seq<char>)
    requires
        labels.no_duplicates(),
    ensures
        occurrences(labels, v) == if labels.contains(v) { 1nat } else { 0nat },
    decreases labels.len(),
{
    if labels.len() > 0 {
        let init = labels.drop_last();
        assert(init.no_duplicates()) by {
            assert forall|i: int, j: int| 0 <= i < init.len() && 0 <= j < init.len() && i != j implies init[i] != init[j] by {
                assert(init[i] == labels[i] && init[j] == labels[j]);
            }
        }
        lemma_occurrences_once(init, v);
        if labels.last() == v {
            if init.contains(v) {
                let k = choose|k: int| 0 <= k < init.len() && init[k] == v;
                assert(labels[k] == labels[labels.len() - 1]);
            }
            assert(labels.contains(v)) by {
                assert(labels[labels.len() - 1] == v);
            }
        } else {
            if labels.contains(v) {
                let k = choose|k: int| 0 <= k < labels.len() && labels[k] == v;
                assert(init[k] == v);
            }
            if init.contains(v) {
                let k = choose|k: int| 0 <= k < init.len() && init[k] == v;
                assert(labels[k] == v);
            }
        }
    }
}

/// Every job lies in exactly one section: when `labels` lists each section label once
/// and covers every job's label, the sections hold as many jobs as `jobs` has.
pub proof fn lemma_sections_partition(jobs: Seq<CronJobView>, by: GroupBy, labels: Seq<Seq<char>>)
    requires
        labels.no_duplicates(),
        forall|k: int| 0 <= k < jobs.len() ==> labels.contains(group_key_of(#[trigger] jobs[k], by)),
    ensures
        section_total(jobs, by, labels) == jobs.len(),
    decreases jobs.len(),
{
    if jobs.len() == 0 {
        lemma_section_total_empty(by, labels);
        assert(jobs =~= Seq::<CronJobView>::empty());
    } else {
        let pre = jobs.drop_last();
        assert forall|k: int| 0 <= k < pre.len() implies labels.contains(group_key_of(#[trigger] pre[k], by)) by {
            assert(pre[k] == jobs[k]);
        }
        lemma_sections_partition(pre, by, labels);
        assert(pre.push(jobs.last()) =~= jobs);
        lemma_section_total_push(pre, jobs.last(), by, labels);
        assert(labels.contains(group_key_of(jobs[jobs.len() - 1], by)));
        lemma_occurrences_once(labels, group_key_of(jobs.last(), by));
    }
}

/// A job belongs to the section labelled with its own key.
pub proof fn lemma_job_in_own_section(jobs: Seq<CronJobView>, by: GroupBy, k: int)
    requires
        0 <= k < jobs.len(),
    ensures
        group_members(jobs, by, group_key_of(jobs[k], by)).contains(jobs[k]),
{
    let l = group_key_of(jobs[k], by);
    jobs.lemma_filter_contains(|j: CronJobView| group_key_of(j, by) == l, k);
}


// ─── Metadata preview ───────────────────────────────────────────────────────

/// What `serde_json` reads from `text`: for text that parses, whether the value is `null`
/// and the keys of the object it is (in the order `serde_json::Map` keeps them), or `None`
/// when it is no object; for text that does not parse, the error's message.
pub uninterp spec fn json_shape(text: Seq<char>) -> Result<(bool, Option<Seq<Seq<char>>>), Seq<char>>;

/// `serde_json::from_str::<serde_json::Value>` on `text`, reduced to whether the value is
/// `null` and the keys of the object it is, or to the message of the parse error: claims
/// that the result is [`json_shape`] of `text`.
#[verifier::external_body]
fn read_json_shape(text: &str) -> (r: Result<(bool, Option<Vec<String>>), String>)
    ensures
        match r {
            Ok((is_null, keys)) => json_shape(text@) == Ok::<(bool, Option<Seq<Seq<char>>>), Seq<char>>((
                is_null,
                match keys {
                    Some(ks) => Some(ks.deep_view()),
                    None => None,
                },
            )),
            Err(msg) => json_shape(text@) == Err::<(bool, Option<Seq<Seq<char>>>), Seq<char>>(msg@),
        },
{
    match serde_json::from_str::<serde_json::Value>(text) {
        Ok(serde_json::Value::Null) => Ok((true, None)),
        Ok(serde_json::Value::Object(map)) => Ok((false, Some(map.keys().cloned().collect()))),
        Ok(_) => Ok((false, None)),
        Err(e) => Err(e.to_string()),
    }
}

/// The short preview of metadata `meta` whose JSON value is `null` when `is_null` holds
/// and an object with keys `keys` when that is `Some`: a dash for `null`, `{}` for an
/// empty object, `{key}` for a one-key object, `{N keys}` for a larger one, and otherwise
/// the first 24 characters of the (compact) text.
pub open spec fn shape_preview(is_null: bool, keys: Option<Seq<Seq<char>>>, meta: Seq<char>) -> Seq<char> {
    if is_null {
        "\u{2014}"@
    } else {
        match keys {
            Some(ks) => if ks.len() == 0 {
                "{}"@
            } else if ks.len() == 1 {
                "{"@ + ks[0] + "}"@
            } else {
                "{"@ + decimal(ks.len()) + " keys}"@
            },
            None => meta.take(if meta.len() <= 24 { meta.len() as int } else { 24 }),
        }
    }
}

/// The preview of a job's metadata; text that is no JSON previews as its first characters.
pub open spec fn meta_preview_text(meta: Seq<char>) -> Seq<char> {
    match json_shape(meta) {
        Ok((is_null, keys)) => shape_preview(is_null, keys, meta),
        Err(_) => shape_preview(false, None, meta),
    }
}

/// The preview of `metadata` given the shape of its JSON value (see [`shape_preview`]).
pub fn preview_of_shape(is_null: bool, keys: &Option<Vec<String>>, metadata: &str) -> (r: String)
    ensures
        r@ == shape_preview(
            is_null,
            match keys {
                Some(ks) => Some(ks.deep_view()),
                None => None,
            },
            metadata@,
        ),
{
    if is_null {
        return owned("\u{2014}");
    }
    match keys {
        Some(ks) => {
            if ks.len() == 0 {
                owned("{}")
            } else if ks.len() == 1 {
                let open = chars_of("{");
                let key = chars_of(ks[0].as_str());
                let close = chars_of("}");
                let a = concat(open.as_slice(), key.as_slice());
                let b = concat(a.as_slice(), close.as_slice());
                proof {
                    assert(ks.deep_view()[0] == ks@[0]@);
                }
                string_of(b.as_slice())
            } else {
                let open = chars_of("{");
                let n = decimal_chars(ks.len() as u64);
                let close = chars_of(" keys}");
                let a = concat(open.as_slice(), n.as_slice());
                let b = concat(a.as_slice(), close.as_slice());
                string_of(b.as_slice())
            }
        },
        None => {
            let cs = chars_of(metadata);
            let end = if cs.len() <= 24 { cs.len() } else { 24 };
            let head = slice_chars(cs.as_slice(), 0, end);
            proof {
                assert(head@ =~= metadata@.take(end as int));
            }
            string_of(head.as_slice())
        },
    }
}

/// The metadata preview shown in a job row.
pub fn meta_preview(metadata: &str) -> (r: String)
    ensures
        r@ == meta_preview_text(metadata@),
{
    match read_json_shape(metadata) {
        Ok((is_null, keys)) => preview_of_shape(is_null, &keys, metadata),
        Err(_) => preview_of_shape(false, &None, metadata),
    }
}

// ─── Job form ───────────────────────────────────────────────────────────────

/// The complaint the job form shows under the metadata field holding `raw`: none for a
/// blank field, otherwise the parse error of text that is no JSON, after an arrow.
pub open spec fn metadata_problem(raw: Seq<char>) -> Option<Seq<char>> {
    if is_blank(raw) {
        None
    } else {
        match json_shape(raw) {
            Ok(_) => None,
            Err(msg) => Some("\u{21B3} "@ + msg),
        }
    }
}

/// The metadata a saved job gets from the field holding `raw`: `null` for a blank field,
/// the text itself otherwise.
pub open spec fn request_metadata(raw: Seq<char>) -> Seq<char> {
    if is_blank(raw) {
        "null"@
    } else {
        raw
    }
}

/// The complaint about the metadata field's text `raw` (see [`metadata_problem`]).
pub fn metadata_error(raw: &str) -> (r: Option<String>)
    ensures
        opt_text(r) == metadata_problem(raw@),
{
    let cs = chars_of(raw);
    if blank(cs.as_slice()) {
        return None;
    }
    match read_json_shape(raw) {
        Ok(_) => None,
        Err(msg) => {
            let arrow = chars_of("\u{21B3} ");
            let m = chars_of(msg.as_str());
            let all = concat(arrow.as_slice(), m.as_slice());
            Some(string_of(all.as_slice()))
        },
    }
}

/// The request the job form sends on save: none while the metadata field has a complaint;
/// otherwise the fields as entered, with the metadata as [`request_metadata`] gives it.
pub fn job_request(schedule: &str, handler: &str, meta_raw: &str, machines: &Vec<String>, enabled: bool) -> (r: Option<
    CreateRequest,
>)
    ensures
        r is None <==> metadata_problem(meta_raw@) is Some,
        r matches Some(q) ==> {
            &&& q.schedule@ == schedule@
            &&& q.handler@ == handler@
            &&& q.metadata@ == request_metadata(meta_raw@)
            &&& q.machines.deep_view() == machines.deep_view()
            &&& q.enabled == enabled
        },
{
    if metadata_error(meta_raw).is_some() {
        return None;
    }
    let cs = chars_of(meta_raw);
    let metadata = if blank(cs.as_slice()) {
        owned("null")
    } else {
        owned(meta_raw)
    };
    Some(
        CreateRequest {
            schedule: owned(schedule),
            handler: owned(handler),
            metadata,
            machines: clone_strings(machines),
            enabled,
        },
    )
}

impl CreateRequest {
    /// The update that sets every field of an edited job to this request's value.
    pub fn into_update(self) -> (r: UpdateRequest)
        ensures
            r.schedule == Some(self.schedule),
            r.handler == Some(self.handler),
            r.metadata == Some(self.metadata),
            r.machines == Some(self.machines),
            r.enabled == Some(self.enabled),
    {
        UpdateRequest {
            schedule: Some(self.schedule),
            handler: Some(self.handler),
            metadata: Some(self.metadata),
            machines: Some(self.machines),
            enabled: Some(self.enabled),
        }
    }
}

// ─── Header checkbox and machine options ────────────────────────────────────

impl CState {
    /// What the header checkbox does over the visible rows `visible`: clear the selection
    /// when there is a visible row and every visible row is selected, otherwise select
    /// exactly the visible rows.
    pub fn select_all_toggle(&self, visible: Vec<String>) -> (r: CAction)
        ensures
            r == (if visible@.len() > 0 && all_among(visible.deep_view(), self.selected.deep_view()) {
                CAction::ClearSelection
            } else {
                CAction::SelectAll(visible)
            }),
    {
        if visible.len() > 0 && all_listed(&visible, &self.selected) {
            CAction::ClearSelection
        } else {
            CAction::SelectAll(visible)
        }
    }
}

/// The machine-facet options: every machine some job targets and the current machine
/// when it is known, sorted, each once.
pub fn machine_options(jobs: &[CronJob], current: &Option<String>) -> (r: Vec<String>)
    ensures
        strictly_sorted(r.deep_view()),
        forall|m: Seq<char>| #[trigger] r.deep_view().contains(m) <==> (some_job_targets(jobs_view(jobs@), m) || opt_text(
            *current,
        ) == Some(m)),
{
    let mut options = distinct_machines(jobs);
    match current {
        Some(cm) => insert_sorted(&mut options, cm),
        None => {},
    }
    options
}

} // verus!

