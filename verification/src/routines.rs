//! The routines tab: the routine record, its faceted filter, health
//! classification, sorting, grouping, the page reducer, and the form codecs.

use vstd::prelude::*;
use crate::cron_jobs::{machine_from_value, machine_value, soonest_le, MachineChoice};
use crate::order::{
    all_among, all_listed, insert_sorted, is_stable_sort_at, lemma_sorted_at, remove_sorted, retain_members,
    search_sorted, sorted_set_of, stable_sort, stamp_le, strictly_sorted, text_le, ColKey, Pair, Rev, Text,
    TotalOrder,
};
use crate::schedule::{due_within, is_due_within, next_fire_after, schedule_valid};
use crate::schedule::{is_word, lemma_words_of_pair, lemma_words_of_word, split_words, words_of};
use crate::text::{
    blank, chars_of, concat, contains, lemma_concat_lacks, lemma_join_with_front, lemma_split_on_front,
    is_plain_line, lemma_contains_within, lemma_join_with_piece, lemma_lines_of_joined, lemma_split_on_whole, lemma_trim_after_space, lemma_trim_idempotent,
    unicode_whitespace, contains_seq, decimal, decimal_chars, is_blank, join_chars, join_strings,
    join_with, lines_of, list_has, lower_trimmed, lowercase_chars, matches_at, occurs_at, owned, same_text,
    split_at_char, split_lines, split_on, string_of, trim, unicode_lowercase,
};

verus! {

/// A copy of `v` with the same strings.
pub fn clone_strings(v: &Vec<String>) -> (r: Vec<String>)
    ensures
        r.deep_view() == v.deep_view(),
{
    let mut out: Vec<String> = Vec::new();
    let mut i: usize = 0;
    while i < v.len()
        invariant
            i <= v@.len(),
            out@.len() == i,
            forall|k: int| 0 <= k < i ==> (#[trigger] out@[k])@ == v@[k]@,
        decreases v@.len() - i,
    {
        out.push(v[i].clone());
        i = i + 1;
    }
    proof {
        assert(out.deep_view() =~= v.deep_view());
    }
    out
}

/// The text of an optional string.
pub open spec fn opt_text(o: Option<String>) -> Option<Seq<char>> {
    match o {
        Some(s) => Some(s@),
        None => None,
    }
}

/// A copy of an optional string.
pub fn clone_opt_string(v: &Option<String>) -> (r: Option<String>)
    ensures
        opt_text(r) == opt_text(*v),
{
    match v {
        Some(s) => Some(s.clone()),
        None => None,
    }
}

/// A git repository listed in a routine's prompt as context.
#[derive(Debug, PartialEq)]
pub struct Repository {
    pub repository: String,
    pub branch: Option<String>,
}

impl View for Repository {
    type V = (Seq<char>, Option<Seq<char>>);

    open spec fn view(&self) -> (Seq<char>, Option<Seq<char>>) {
        (self.repository@, opt_text(self.branch))
    }
}

impl Clone for Repository {
    fn clone(&self) -> (r: Self)
        ensures
            r@ == self@,
    {
        Repository { repository: self.repository.clone(), branch: clone_opt_string(&self.branch) }
    }
}

/// The views of a repository list.
pub open spec fn repos_view(v: Seq<Repository>) -> Seq<(Seq<char>, Option<Seq<char>>)> {
    v.map_values(|r: Repository| r@)
}

/// A copy of a repository list.
pub fn clone_repos(v: &Vec<Repository>) -> (r: Vec<Repository>)
    ensures
        repos_view(r@) == repos_view(v@),
{
    let mut out: Vec<Repository> = Vec::new();
    let mut i: usize = 0;
    while i < v.len()
        invariant
            i <= v@.len(),
            out@.len() == i,
            forall|k: int| 0 <= k < i ==> (#[trigger] out@[k])@ == v@[k]@,
        decreases v@.len() - i,
    {
        out.push(v[i].clone());
        i = i + 1;
    }
    proof {
        assert(repos_view(out@) =~= repos_view(v@));
    }
    out
}

/// A routine as the server lists it.
#[derive(Debug, PartialEq)]
pub struct Routine {
    pub id: String,
    pub schedule: String,
    pub title: String,
    pub agent: String,
    pub prompt: String,
    pub repositories: Vec<Repository>,
    /// Machines this routine runs on. An empty list runs nowhere.
    pub machines: Vec<String>,
    pub enabled: bool,
    pub source: String,
    pub created_at: u64,
    pub updated_at: u64,
    pub last_manual_trigger_at: Option<u64>,
    pub last_scheduled_trigger_at: Option<u64>,
    /// Unix timestamp until which scheduled fires are skipped.
    pub snoozed_until: Option<u64>,
    /// Count of upcoming scheduled fires still to skip.
    pub skip_runs: Option<u32>,
    /// Workbench retention (seconds) for finished runs; `None` is the server default.
    pub ttl_secs: Option<u64>,
    /// Free-form labels.
    pub tags: Vec<String>,
    pub agent_registered: bool,
    pub file_path: String,
    pub schedule_description: Option<String>,
    /// Number of open flags raised against this routine.
    pub flag_count: usize,
}

/// The mathematical content of a [`Routine`].
pub struct RoutineView {
    pub id: Seq<char>,
    pub schedule: Seq<char>,
    pub title: Seq<char>,
    pub agent: Seq<char>,
    pub prompt: Seq<char>,
    pub repositories: Seq<(Seq<char>, Option<Seq<char>>)>,
    pub machines: Seq<Seq<char>>,
    pub enabled: bool,
    pub source: Seq<char>,
    pub created_at: u64,
    pub updated_at: u64,
    pub last_manual_trigger_at: Option<u64>,
    pub last_scheduled_trigger_at: Option<u64>,
    pub snoozed_until: Option<u64>,
    pub skip_runs: Option<u32>,
    pub ttl_secs: Option<u64>,
    pub tags: Seq<Seq<char>>,
    pub agent_registered: bool,
    pub file_path: Seq<char>,
    pub schedule_description: Option<Seq<char>>,
    pub flag_count: usize,
}

impl View for Routine {
    type V = RoutineView;

    open spec fn view(&self) -> RoutineView {
        RoutineView {
            id: self.id@,
            schedule: self.schedule@,
            title: self.title@,
            agent: self.agent@,
            prompt: self.prompt@,
            repositories: repos_view(self.repositories@),
            machines: self.machines.deep_view(),
            enabled: self.enabled,
            source: self.source@,
            created_at: self.created_at,
            updated_at: self.updated_at,
            last_manual_trigger_at: self.last_manual_trigger_at,
            last_scheduled_trigger_at: self.last_scheduled_trigger_at,
            snoozed_until: self.snoozed_until,
            skip_runs: self.skip_runs,
            ttl_secs: self.ttl_secs,
            tags: self.tags.deep_view(),
            agent_registered: self.agent_registered,
            file_path: self.file_path@,
            schedule_description: opt_text(self.schedule_description),
            flag_count: self.flag_count,
        }
    }
}

impl Clone for Routine {
    fn clone(&self) -> (r: Self)
        ensures
            r@ == self@,
    {
        Routine {
            id: self.id.clone(),
            schedule: self.schedule.clone(),
            title: self.title.clone(),
            agent: self.agent.clone(),
            prompt: self.prompt.clone(),
            repositories: clone_repos(&self.repositories),
            machines: clone_strings(&self.machines),
            enabled: self.enabled,
            source: self.source.clone(),
            created_at: self.created_at,
            updated_at: self.updated_at,
            last_manual_trigger_at: self.last_manual_trigger_at,
            last_scheduled_trigger_at: self.last_scheduled_trigger_at,
            snoozed_until: self.snoozed_until,
            skip_runs: self.skip_runs,
            ttl_secs: self.ttl_secs,
            tags: clone_strings(&self.tags),
            agent_registered: self.agent_registered,
            file_path: self.file_path.clone(),
            schedule_description: clone_opt_string(&self.schedule_description),
            flag_count: self.flag_count,
        }
    }
}

/// The views of a routine list.
pub open spec fn routines_view(v: Seq<Routine>) -> Seq<RoutineView> {
    v.map_values(|r: Routine| r@)
}

// ─── Facets ─────────────────────────────────────────────────────────────────

/// How far ahead a routine's next fire counts as "due soon", in seconds.
pub const ROUTINE_DUE_SOON_WINDOW_SECS: i64 = 3_600;

/// Status facet. `Dormant` is enabled with no machine (it never fires); `DueSoon` is
/// enabled with a next fire inside the due-soon window.
#[derive(Debug, Clone, Copy, PartialEq, Eq, Structural)]
pub enum RoutineStatusFacet {
    All,
    Enabled,
    Disabled,
    Dormant,
    DueSoon,
}

impl Default for RoutineStatusFacet {
    fn default() -> (r: Self)
        ensures
            r == RoutineStatusFacet::All,
    {
        RoutineStatusFacet::All
    }
}

/// The token of a routine status facet.
pub open spec fn routine_status_token(f: RoutineStatusFacet) -> Seq<char> {
    match f {
        RoutineStatusFacet::All => "all"@,
        RoutineStatusFacet::Enabled => "enabled"@,
        RoutineStatusFacet::Disabled => "disabled"@,
        RoutineStatusFacet::Dormant => "dormant"@,
        RoutineStatusFacet::DueSoon => "due"@,
    }
}

/// The routine status facet a token names; anything unknown is `All`.
pub open spec fn routine_status_from_token(s: Seq<char>) -> RoutineStatusFacet {
    if s == "enabled"@ {
        RoutineStatusFacet::Enabled
    } else if s == "disabled"@ {
        RoutineStatusFacet::Disabled
    } else if s == "dormant"@ {
        RoutineStatusFacet::Dormant
    } else if s == "due"@ {
        RoutineStatusFacet::DueSoon
    } else {
        RoutineStatusFacet::All
    }
}

impl RoutineStatusFacet {
    /// Stable token used as the segmented-control value.
    pub fn as_str(self) -> (r: &'static str)
        ensures
            r@ == routine_status_token(self),
    {
        match self {
            RoutineStatusFacet::All => "all",
            RoutineStatusFacet::Enabled => "enabled",
            RoutineStatusFacet::Disabled => "disabled",
            RoutineStatusFacet::Dormant => "dormant",
            RoutineStatusFacet::DueSoon => "due",
        }
    }

    /// The facet a token names, `All` for anything unknown.
    pub fn from_str(s: &str) -> (r: Self)
        ensures
            r == routine_status_from_token(s@),
    {
        if same_text(s, "enabled") {
            RoutineStatusFacet::Enabled
        } else if same_text(s, "disabled") {
            RoutineStatusFacet::Disabled
        } else if same_text(s, "dormant") {
            RoutineStatusFacet::Dormant
        } else if same_text(s, "due") {
            RoutineStatusFacet::DueSoon
        } else {
            RoutineStatusFacet::All
        }
    }
}

/// Machine facet of the routines filter: any machine, the routines with no machine, or
/// one specific machine.
#[derive(Debug, PartialEq, Eq)]
pub enum RoutineMachineFacet {
    Any,
    Unassigned,
    Machine(String),
}

impl Default for RoutineMachineFacet {
    fn default() -> (r: Self)
        ensures
            r is Any,
    {
        RoutineMachineFacet::Any
    }
}

impl Clone for RoutineMachineFacet {
    fn clone(&self) -> (r: Self)
        ensures
            r@ == self@,
    {
        match self {
            RoutineMachineFacet::Any => RoutineMachineFacet::Any,
            RoutineMachineFacet::Unassigned => RoutineMachineFacet::Unassigned,
            RoutineMachineFacet::Machine(m) => RoutineMachineFacet::Machine(m.clone()),
        }
    }
}

impl View for RoutineMachineFacet {
    type V = MachineChoice;

    open spec fn view(&self) -> MachineChoice {
        match self {
            RoutineMachineFacet::Any => MachineChoice::Any,
            RoutineMachineFacet::Unassigned => MachineChoice::Unassigned,
            RoutineMachineFacet::Machine(m) => MachineChoice::Machine(m@),
        }
    }
}

impl RoutineMachineFacet {
    /// Encode for the `<select>` option value.
    pub fn as_value(&self) -> (r: String)
        ensures
            r@ == machine_value(self@),
    {
        match self {
            RoutineMachineFacet::Any => owned("\u{0}any"),
            RoutineMachineFacet::Unassigned => owned("\u{0}unassigned"),
            RoutineMachineFacet::Machine(m) => m.clone(),
        }
    }

    /// Decode from a selected `<select>` option value.
    pub fn from_value(v: &str) -> (r: Self)
        ensures
            r@ == machine_from_value(v@),
    {
        if same_text(v, "\u{0}any") {
            RoutineMachineFacet::Any
        } else if same_text(v, "\u{0}unassigned") {
            RoutineMachineFacet::Unassigned
        } else {
            RoutineMachineFacet::Machine(owned(v))
        }
    }
}

/// Select value of an "all" choice of the agent and repository facets.
pub open spec fn all_token() -> Seq<char> {
    "\u{0}all"@
}

/// The select value of a named facet (`None` for all).
pub open spec fn named_value(f: Option<Seq<char>>) -> Seq<char> {
    match f {
        None => all_token(),
        Some(name) => name,
    }
}

/// The named facet a select value names.
pub open spec fn named_from_value(v: Seq<char>) -> Option<Seq<char>> {
    if v == all_token() {
        None
    } else {
        Some(v)
    }
}

/// Agent facet: all agents, or one agent name.
#[derive(Debug, PartialEq, Eq)]
pub enum AgentFacet {
    All,
    Named(String),
}

impl Default for AgentFacet {
    fn default() -> (r: Self)
        ensures
            r is All,
    {
        AgentFacet::All
    }
}

impl Clone for AgentFacet {
    fn clone(&self) -> (r: Self)
        ensures
            r@ == self@,
    {
        match self {
            AgentFacet::All => AgentFacet::All,
            AgentFacet::Named(a) => AgentFacet::Named(a.clone()),
        }
    }
}

impl View for AgentFacet {
    type V = Option<Seq<char>>;

    /// `None` for all agents, else the agent name.
    open spec fn view(&self) -> Option<Seq<char>> {
        match self {
            AgentFacet::All => None,
            AgentFacet::Named(a) => Some(a@),
        }
    }
}

impl AgentFacet {
    /// Encode for the `<select>` option value.
    pub fn as_value(&self) -> (r: String)
        ensures
            r@ == named_value(self@),
    {
        match self {
            AgentFacet::All => owned("\u{0}all"),
            AgentFacet::Named(a) => a.clone(),
        }
    }

    /// Decode from a selected `<select>` option value.
    pub fn from_value(v: &str) -> (r: Self)
        ensures
            r@ == named_from_value(v@),
    {
        if same_text(v, "\u{0}all") {
            AgentFacet::All
        } else {
            AgentFacet::Named(owned(v))
        }
    }
}

/// Repository facet: all repositories, or one repository URL.
#[derive(Debug, PartialEq, Eq)]
pub enum RepositoryFacet {
    All,
    Named(String),
}

impl Default for RepositoryFacet {
    fn default() -> (r: Self)
        ensures
            r is All,
    {
        RepositoryFacet::All
    }
}

impl Clone for RepositoryFacet {
    fn clone(&self) -> (r: Self)
        ensures
            r@ == self@,
    {
        match self {
            RepositoryFacet::All => RepositoryFacet::All,
            RepositoryFacet::Named(a) => RepositoryFacet::Named(a.clone()),
        }
    }
}

impl View for RepositoryFacet {
    type V = Option<Seq<char>>;

    /// `None` for all repositories, else the repository URL.
    open spec fn view(&self) -> Option<Seq<char>> {
        match self {
            RepositoryFacet::All => None,
            RepositoryFacet::Named(a) => Some(a@),
        }
    }
}

impl RepositoryFacet {
    /// Encode for the `<select>` option value.
    pub fn as_value(&self) -> (r: String)
        ensures
            r@ == named_value(self@),
    {
        match self {
            RepositoryFacet::All => owned("\u{0}all"),
            RepositoryFacet::Named(a) => a.clone(),
        }
    }

    /// Decode from a selected `<select>` option value.
    pub fn from_value(v: &str) -> (r: Self)
        ensures
            r@ == named_from_value(v@),
    {
        if same_text(v, "\u{0}all") {
            RepositoryFacet::All
        } else {
            RepositoryFacet::Named(owned(v))
        }
    }
}

// ─── Filter ─────────────────────────────────────────────────────────────────

/// Combined free-text + faceted filter applied to the loaded routines.
#[derive(Debug, PartialEq)]
pub struct RoutineFilter {
    /// Free-text needle matched across title, agent, schedule, repositories and the
    /// schedule description.
    pub query: String,
    pub status: RoutineStatusFacet,
    pub agent: AgentFacet,
    pub machine: RoutineMachineFacet,
    pub repository: RepositoryFacet,
}

/// The mathematical content of a [`RoutineFilter`].
pub struct RoutineFilterView {
    pub query: Seq<char>,
    pub status: RoutineStatusFacet,
    pub agent: Option<Seq<char>>,
    pub machine: MachineChoice,
    pub repository: Option<Seq<char>>,
}

impl View for RoutineFilter {
    type V = RoutineFilterView;

    open spec fn view(&self) -> RoutineFilterView {
        RoutineFilterView {
            query: self.query@,
            status: self.status,
            agent: self.agent@,
            machine: self.machine@,
            repository: self.repository@,
        }
    }
}

/// The routine filter that narrows nothing.
pub open spec fn open_routine_filter() -> RoutineFilterView {
    RoutineFilterView {
        query: seq![],
        status: RoutineStatusFacet::All,
        agent: None,
        machine: MachineChoice::Any,
        repository: None,
    }
}

impl Default for RoutineFilter {
    fn default() -> (r: Self)
        ensures
            r@ == open_routine_filter(),
    {
        let r = RoutineFilter {
            query: String::new(),
            status: RoutineStatusFacet::All,
            agent: AgentFacet::All,
            machine: RoutineMachineFacet::Any,
            repository: RepositoryFacet::All,
        };
        proof {
            assert(r.query@ =~= Seq::<char>::empty());
        }
        r
    }
}

impl Clone for RoutineFilter {
    fn clone(&self) -> (r: Self)
        ensures
            r@ == self@,
    {
        RoutineFilter {
            query: self.query.clone(),
            status: self.status,
            agent: self.agent.clone(),
            machine: self.machine.clone(),
            repository: self.repository.clone(),
        }
    }
}

/// Whether a status facet admits a routine that is `enabled`, targets `machines`, and
/// is `due` soon.
pub open spec fn routine_status_admits(f: RoutineStatusFacet, enabled: bool, machines: Seq<Seq<char>>, due: bool) -> bool {
    match f {
        RoutineStatusFacet::All => true,
        RoutineStatusFacet::Enabled => enabled,
        RoutineStatusFacet::Disabled => !enabled,
        RoutineStatusFacet::Dormant => enabled && machines.len() == 0,
        RoutineStatusFacet::DueSoon => enabled && due,
    }
}

/// The repository URLs of a routine, in order.
pub open spec fn repo_urls(r: RoutineView) -> Seq<Seq<char>> {
    r.repositories.map_values(|p: (Seq<char>, Option<Seq<char>>)| p.0)
}

/// The lowercased text a routine's free-text query is matched against: title, agent,
/// prompt, schedule, the repository URLs joined by spaces, and the description.
pub open spec fn routine_haystack(r: RoutineView) -> Seq<char> {
    let desc = match r.schedule_description {
        Some(d) => d,
        None => Seq::<char>::empty(),
    };
    unicode_lowercase(r.title) + " "@ + unicode_lowercase(r.agent) + " "@ + unicode_lowercase(r.prompt) + " "@
        + unicode_lowercase(r.schedule) + " "@
        + join_with(repo_urls(r).map_values(|u: Seq<char>| unicode_lowercase(u)), " "@) + " "@ + unicode_lowercase(desc)
}

/// Whether `f` keeps routine `r`, whose next fire after the reference instant is due soon
/// exactly when `due` holds. Facets AND together.
pub open spec fn routine_filter_admits(f: RoutineFilterView, r: RoutineView, due: bool) -> bool {
    &&& routine_status_admits(f.status, r.enabled, r.machines, due)
    &&& match f.agent {
        None => true,
        Some(a) => r.agent == a,
    }
    &&& match f.machine {
        MachineChoice::Any => true,
        MachineChoice::Unassigned => r.machines.len() == 0,
        MachineChoice::Machine(m) => r.machines.contains(m),
    }
    &&& match f.repository {
        None => true,
        Some(url) => repo_urls(r).contains(url),
    }
    &&& (trim(f.query).len() == 0 || contains_seq(routine_haystack(r), unicode_lowercase(trim(f.query))))
}

/// Whether some repository of `repos` has URL `url`.
fn has_repository(repos: &Vec<Repository>, url: &str) -> (r: bool)
    ensures
        r == repos_view(repos@).map_values(|p: (Seq<char>, Option<Seq<char>>)| p.0).contains(url@),
{
    let ghost urls = repos_view(repos@).map_values(|p: (Seq<char>, Option<Seq<char>>)| p.0);
    let mut i: usize = 0;
    while i < repos.len()
        invariant
            i <= repos@.len(),
            urls == repos_view(repos@).map_values(|p: (Seq<char>, Option<Seq<char>>)| p.0),
            forall|k: int| 0 <= k < i ==> urls[k] != url@,
        decreases repos@.len() - i,
    {
        if same_text(repos[i].repository.as_str(), url) {
            proof {
                assert(urls[i as int] == url@);
            }
            return true;
        }
        i = i + 1;
    }
    false
}

/// The lowercased haystack of a routine.
fn routine_hay(r: &Routine) -> (out: Vec<char>)
    ensures
        out@ == routine_haystack(r@),
{
    let sp = chars_of(" ");
    let mut lowered: Vec<Vec<char>> = Vec::new();
    let mut i: usize = 0;
    while i < r.repositories.len()
        invariant
            i <= r.repositories@.len(),
            lowered@.len() == i,
            forall|k: int|
                0 <= k < i ==> (#[trigger] lowered@[k])@ == unicode_lowercase(r.repositories@[k].repository@),
        decreases r.repositories@.len() - i,
    {
        lowered.push(lowercase_chars(r.repositories[i].repository.as_str()));
        i = i + 1;
    }
    let repos = join_chars(&lowered, sp.as_slice());
    proof {
        assert(lowered@.map_values(|w: Vec<char>| w@) =~= repo_urls(r@).map_values(|u: Seq<char>| unicode_lowercase(u)));
    }
    let title = lowercase_chars(r.title.as_str());
    let agent = lowercase_chars(r.agent.as_str());
    let prompt = lowercase_chars(r.prompt.as_str());
    let schedule = lowercase_chars(r.schedule.as_str());
    let desc = match &r.schedule_description {
        Some(d) => lowercase_chars(d.as_str()),
        None => lowercase_chars(""),
    };
    let mut out = concat(title.as_slice(), sp.as_slice());
    out = concat(out.as_slice(), agent.as_slice());
    out = concat(out.as_slice(), sp.as_slice());
    out = concat(out.as_slice(), prompt.as_slice());
    out = concat(out.as_slice(), sp.as_slice());
    out = concat(out.as_slice(), schedule.as_slice());
    out = concat(out.as_slice(), sp.as_slice());
    out = concat(out.as_slice(), repos.as_slice());
    out = concat(out.as_slice(), sp.as_slice());
    out = concat(out.as_slice(), desc.as_slice());
    proof {
        if r.schedule_description is None {
            reveal_strlit("");
            assert(""@ =~= Seq::<char>::empty());
        }
    }
    out
}

impl RoutineFilter {
    /// Whether any facet is narrowing the list.
    pub fn is_active(&self) -> (r: bool)
        ensures
            r == (trim(self.query@).len() > 0 || self.status != RoutineStatusFacet::All || !(self.agent is All)
                || !(self.machine is Any) || !(self.repository is All)),
    {
        let q = chars_of(self.query.as_str());
        let t = crate::text::trimmed(q.as_slice());
        t.len() > 0 || self.status != RoutineStatusFacet::All || !matches!(self.agent, AgentFacet::All)
            || !matches!(self.machine, RoutineMachineFacet::Any) || !matches!(self.repository, RepositoryFacet::All)
    }

    /// Does `r` survive the filter, given its next fire `next` after `now`? `DueSoon`
    /// keeps an enabled routine whose next fire lies within `window` seconds.
    pub fn matches_with(&self, r: &Routine, next: Option<i64>, now: i64, window: i64) -> (ok: bool)
        ensures
            ok == routine_filter_admits(self@, r@, due_within(next, now, window)),
    {
        let due = is_due_within(next, now, window);
        let status_ok = match self.status {
            RoutineStatusFacet::All => true,
            RoutineStatusFacet::Enabled => r.enabled,
            RoutineStatusFacet::Disabled => !r.enabled,
            RoutineStatusFacet::Dormant => r.enabled && r.machines.len() == 0,
            RoutineStatusFacet::DueSoon => r.enabled && due,
        };
        if !status_ok {
            return false;
        }
        let agent_ok = match &self.agent {
            AgentFacet::All => true,
            AgentFacet::Named(a) => same_text(r.agent.as_str(), a.as_str()),
        };
        if !agent_ok {
            return false;
        }
        let machine_ok = match &self.machine {
            RoutineMachineFacet::Any => true,
            RoutineMachineFacet::Unassigned => r.machines.len() == 0,
            RoutineMachineFacet::Machine(m) => list_has(&r.machines, m.as_str()),
        };
        if !machine_ok {
            return false;
        }
        let repo_ok = match &self.repository {
            RepositoryFacet::All => true,
            RepositoryFacet::Named(url) => has_repository(&r.repositories, url.as_str()),
        };
        if !repo_ok {
            return false;
        }
        let q = lower_trimmed(self.query.as_str());
        if q.len() > 0 {
            let hay = routine_hay(r);
            contains(hay.as_slice(), q.as_slice())
        } else {
            true
        }
    }

    /// Does `r` survive the filter as of `now`? The due-soon facet looks up the routine's
    /// next fire; whatever that lookup returns, the answer is the one
    /// [`routine_filter_admits`] gives for it.
    pub fn matches(&self, r: &Routine, now: i64, window: i64) -> (ok: bool)
        ensures
            exists|next: Option<i64>|
                {
                    &&& (next matches Some(t) ==> t > now && schedule_valid(r.schedule@))
                    &&& ok == routine_filter_admits(self@, r@, due_within(next, now, window))
                },
    {
        let next = if self.status == RoutineStatusFacet::DueSoon {
            next_fire_after(r.schedule.as_str(), now)
        } else {
            None
        };
        self.matches_with(r, next, now, window)
    }
}

/// The latest of a routine's manual and scheduled trigger times; `None` if it has never
/// fired.
pub open spec fn last_fire_of(r: RoutineView) -> Option<u64> {
    match (r.last_manual_trigger_at, r.last_scheduled_trigger_at) {
        (None, None) => None,
        (Some(m), None) => Some(m),
        (None, Some(t)) => Some(t),
        (Some(m), Some(t)) => Some(if m >= t { m } else { t }),
    }
}

/// The most recent trigger time across manual and scheduled fires.
pub fn last_fire_at(r: &Routine) -> (out: Option<u64>)
    ensures
        out == last_fire_of(r@),
{
    match (r.last_manual_trigger_at, r.last_scheduled_trigger_at) {
        (None, None) => None,
        (Some(m), None) => Some(m),
        (None, Some(t)) => Some(t),
        (Some(m), Some(t)) => Some(if m >= t { m } else { t }),
    }
}

// ─── Health ─────────────────────────────────────────────────────────────────

/// At-a-glance operational health of a routine, so every row carries a badge.
#[derive(Debug, Clone, Copy, PartialEq, Eq, Structural)]
pub enum RoutineHealth {
    /// Enabled but assigned to no machine: fires nowhere.
    Dormant,
    /// Enabled with a machine, but the schedule yields no future fire.
    DeadSchedule,
    /// Enabled and scheduled with a machine, but the agent config is missing.
    AgentMissing,
    /// Intentionally paused.
    Disabled,
    /// Operational, but the agent snoozed its own scheduled fires.
    Snoozed,
    /// Fully operational.
    Healthy,
}

/// Urgency of a health state: lower is more urgent, so an ascending sort puts broken
/// rows first.
pub open spec fn health_priority(h: RoutineHealth) -> u8 {
    match h {
        RoutineHealth::Dormant => 0,
        RoutineHealth::DeadSchedule => 1,
        RoutineHealth::AgentMissing => 2,
        RoutineHealth::Disabled => 3,
        RoutineHealth::Snoozed => 4,
        RoutineHealth::Healthy => 5,
    }
}

/// The badge text of a health state.
pub open spec fn health_badge(h: RoutineHealth) -> Seq<char> {
    match h {
        RoutineHealth::Dormant => "DORMANT"@,
        RoutineHealth::DeadSchedule => "DEAD SCHEDULE"@,
        RoutineHealth::AgentMissing => "AGENT MISSING"@,
        RoutineHealth::Disabled => "DISABLED"@,
        RoutineHealth::Snoozed => "SNOOZED"@,
        RoutineHealth::Healthy => "HEALTHY"@,
    }
}

/// The CSS class of a health state's badge.
pub open spec fn health_badge_class(h: RoutineHealth) -> Seq<char> {
    match h {
        RoutineHealth::Dormant => "health-badge dormant"@,
        RoutineHealth::DeadSchedule => "health-badge dead"@,
        RoutineHealth::AgentMissing => "health-badge agent-missing"@,
        RoutineHealth::Disabled => "health-badge disabled"@,
        RoutineHealth::Snoozed => "health-badge snoozed"@,
        RoutineHealth::Healthy => "health-badge healthy"@,
    }
}

impl RoutineHealth {
    /// Lower number = more urgent.
    pub fn priority(self) -> (r: u8)
        ensures
            r == health_priority(self),
    {
        match self {
            RoutineHealth::Dormant => 0,
            RoutineHealth::DeadSchedule => 1,
            RoutineHealth::AgentMissing => 2,
            RoutineHealth::Disabled => 3,
            RoutineHealth::Snoozed => 4,
            RoutineHealth::Healthy => 5,
        }
    }

    /// Short uppercase label shown in the badge.
    pub fn badge(self) -> (r: &'static str)
        ensures
            r@ == health_badge(self),
    {
        match self {
            RoutineHealth::Dormant => "DORMANT",
            RoutineHealth::DeadSchedule => "DEAD SCHEDULE",
            RoutineHealth::AgentMissing => "AGENT MISSING",
            RoutineHealth::Disabled => "DISABLED",
            RoutineHealth::Snoozed => "SNOOZED",
            RoutineHealth::Healthy => "HEALTHY",
        }
    }

    /// CSS class string for the badge.
    pub fn badge_class(self) -> (r: &'static str)
        ensures
            r@ == health_badge_class(self),
    {
        match self {
            RoutineHealth::Dormant => "health-badge dormant",
            RoutineHealth::DeadSchedule => "health-badge dead",
            RoutineHealth::AgentMissing => "health-badge agent-missing",
            RoutineHealth::Disabled => "health-badge disabled",
            RoutineHealth::Snoozed => "health-badge snoozed",
            RoutineHealth::Healthy => "health-badge healthy",
        }
    }
}

/// Every machine name in `ms` is blank (so the routine fires nowhere).
pub open spec fn all_blank(ms: Seq<Seq<char>>) -> bool {
    forall|i: int| 0 <= i < ms.len() ==> is_blank(#[trigger] ms[i])
}

/// Whether the routine's agent has snoozed its scheduled fires as of `now`: snoozed until
/// a later instant, or runs left to skip.
pub open spec fn snoozed_at(r: RoutineView, now: i64) -> bool {
    ||| r.snoozed_until matches Some(until) && (until as i64) > now
    ||| r.skip_runs matches Some(runs) && runs > 0
}

/// The health of routine `r` as of `now`, where `fires` says whether its schedule yields a
/// future fire. Faults rank `Dormant` over `DeadSchedule` over `AgentMissing`.
pub open spec fn health_of(r: RoutineView, fires: bool, now: i64) -> RoutineHealth {
    if !r.enabled {
        RoutineHealth::Disabled
    } else if all_blank(r.machines) {
        RoutineHealth::Dormant
    } else if !fires {
        RoutineHealth::DeadSchedule
    } else if !r.agent_registered {
        RoutineHealth::AgentMissing
    } else if snoozed_at(r, now) {
        RoutineHealth::Snoozed
    } else {
        RoutineHealth::Healthy
    }
}

/// Whether every machine name of `machines` is blank.
pub fn machines_blank(machines: &Vec<String>) -> (r: bool)
    ensures
        r == all_blank(machines.deep_view()),
{
    let mut i: usize = 0;
    while i < machines.len()
        invariant
            i <= machines@.len(),
            forall|k: int| 0 <= k < i ==> is_blank(#[trigger] machines.deep_view()[k]),
        decreases machines@.len() - i,
    {
        let cs = chars_of(machines[i].as_str());
        if !blank(cs.as_slice()) {
            proof {
                assert(!is_blank(machines.deep_view()[i as int]));
            }
            return false;
        }
        i = i + 1;
    }
    true
}

/// The health of `r` as of `now`, given whether its schedule yields a future fire.
pub fn health_given(r: &Routine, fires: bool, now: i64) -> (h: RoutineHealth)
    ensures
        h == health_of(r@, fires, now),
{
    if !r.enabled {
        return RoutineHealth::Disabled;
    }
    if machines_blank(&r.machines) {
        return RoutineHealth::Dormant;
    }
    if !fires {
        return RoutineHealth::DeadSchedule;
    }
    if !r.agent_registered {
        return RoutineHealth::AgentMissing;
    }
    let snoozed = match r.snoozed_until {
        Some(until) => (until as i64) > now,
        None => false,
    } || match r.skip_runs {
        Some(runs) => runs > 0,
        None => false,
    };
    if snoozed {
        return RoutineHealth::Snoozed;
    }
    RoutineHealth::Healthy
}

/// The health of `r` as of `now`. Its schedule's next fire is looked up only when the
/// routine is enabled and assigned; whatever the lookup says, the result is
/// [`health_of`] for it, and a routine counted as firing has a valid schedule.
pub fn routine_health(r: &Routine, now: i64) -> (h: RoutineHealth)
    ensures
        exists|fires: bool| (fires ==> schedule_valid(r.schedule@)) && h == health_of(r@, fires, now),
{
    let fires = if r.enabled && !machines_blank(&r.machines) {
        next_fire_after(r.schedule.as_str(), now).is_some()
    } else {
        false
    };
    health_given(r, fires, now)
}

// ─── Lists ──────────────────────────────────────────────────────────────────

/// The routines of `rs` that `f` keeps, in order, where `nexts[i]` is the next fire of
/// `rs[i]` after `now`.
pub open spec fn routines_filtered(
    rs: Seq<RoutineView>,
    f: RoutineFilterView,
    nexts: Seq<Option<i64>>,
    now: i64,
    window: i64,
) -> Seq<RoutineView>
    decreases rs.len(),
{
    if rs.len() == 0 {
        seq![]
    } else {
        let rest = routines_filtered(rs.drop_last(), f, nexts.drop_last(), now, window);
        if routine_filter_admits(f, rs.last(), due_within(nexts.last(), now, window)) {
            rest.push(rs.last())
        } else {
            rest
        }
    }
}

/// Possible next fires of `rs` after `now`: each one found lies after `now` on a routine
/// with a valid schedule.
pub open spec fn plausible_routine_nexts(rs: Seq<RoutineView>, nexts: Seq<Option<i64>>, now: i64) -> bool {
    &&& nexts.len() == rs.len()
    &&& forall|i: int|
        0 <= i < rs.len() ==> (#[trigger] nexts[i] matches Some(t) ==> t > now && schedule_valid(rs[i].schedule))
}

/// Routines surviving `filter`, preserving the input order.
pub fn filter_routines(routines: &[Routine], filter: &RoutineFilter, now: i64, window: i64) -> (r: Vec<Routine>)
    ensures
        exists|nexts: Seq<Option<i64>>|
            {
                &&& plausible_routine_nexts(routines_view(routines@), nexts, now)
                &&& routines_view(r@) == routines_filtered(routines_view(routines@), filter@, nexts, now, window)
            },
{
    let mut out: Vec<Routine> = Vec::new();
    let ghost mut nexts: Seq<Option<i64>> = seq![];
    let mut i: usize = 0;
    while i < routines.len()
        invariant
            i <= routines@.len(),
            plausible_routine_nexts(routines_view(routines@.take(i as int)), nexts, now),
            routines_view(out@) == routines_filtered(routines_view(routines@.take(i as int)), filter@, nexts, now, window),
        decreases routines@.len() - i,
    {
        let rt = &routines[i];
        let next = if filter.status == RoutineStatusFacet::DueSoon {
            next_fire_after(rt.schedule.as_str(), now)
        } else {
            None
        };
        let keep = filter.matches_with(rt, next, now, window);
        let ghost before = out@;
        if keep {
            out.push(rt.clone());
        }
        proof {
            let pre = routines_view(routines@.take(i as int));
            let post = routines_view(routines@.take(i + 1));
            assert(post =~= pre.push(rt@));
            assert(post.drop_last() =~= pre);
            let nn = nexts.push(next);
            assert(nn.drop_last() =~= nexts);
            assert forall|k: int| 0 <= k < post.len() implies (#[trigger] nn[k] matches Some(t) ==> t > now
                && schedule_valid(post[k].schedule)) by {
                if k < pre.len() {
                    assert(nn[k] == nexts[k]);
                }
            }
            nexts = nn;
            if keep {
                assert(routines_view(out@) =~= routines_view(before).push(rt@));
            } else {
                assert(routines_view(out@) =~= routines_view(before));
            }
        }
        i = i + 1;
    }
    proof {
        assert(routines@.take(routines@.len() as int) =~= routines@);
    }
    out
}

/// Distinct agent names across all routines, sorted.
pub fn distinct_agents(routines: &[Routine]) -> (r: Vec<String>)
    ensures
        strictly_sorted(r.deep_view()),
        forall|a: Seq<char>| #[trigger] r.deep_view().contains(a) <==> exists|i: int|
            0 <= i < routines@.len() && (#[trigger] routines@[i]).agent@ == a,
{
    let mut set: Vec<String> = Vec::new();
    let mut i: usize = 0;
    while i < routines.len()
        invariant
            i <= routines@.len(),
            strictly_sorted(set.deep_view()),
            forall|a: Seq<char>| #[trigger] set.deep_view().contains(a) <==> exists|k: int|
                0 <= k < i && (#[trigger] routines@[k]).agent@ == a,
        decreases routines@.len() - i,
    {
        insert_sorted(&mut set, &routines[i].agent);
        proof {
            assert forall|a: Seq<char>| #[trigger] set.deep_view().contains(a) <==> exists|k: int|
                0 <= k < i + 1 && (#[trigger] routines@[k]).agent@ == a by {
                if set.deep_view().contains(a) && a == routines@[i as int].agent@ {
                    assert(routines@[i as int].agent@ == a);
                }
            }
        }
        i = i + 1;
    }
    set
}

/// Adds the strings of `items` to the sorted set `set`.
fn insert_all(set: &mut Vec<String>, items: &Vec<String>)
    requires
        strictly_sorted(old(set).deep_view()),
    ensures
        strictly_sorted(final(set).deep_view()),
        forall|x: Seq<char>|
            #[trigger] final(set).deep_view().contains(x) <==> (old(set).deep_view().contains(x) || items.deep_view().contains(x)),
{
    let ghost s0 = set.deep_view();
    let mut k: usize = 0;
    while k < items.len()
        invariant
            k <= items@.len(),
            strictly_sorted(set.deep_view()),
            forall|x: Seq<char>|
                #[trigger] set.deep_view().contains(x) <==> (s0.contains(x) || items.deep_view().take(k as int).contains(x)),
        decreases items@.len() - k,
    {
        insert_sorted(set, &items[k]);
        proof {
            let dv = items.deep_view();
            assert forall|x: Seq<char>| dv.take(k + 1).contains(x) <==> (dv.take(k as int).contains(x) || x
                == items@[k as int]@) by {
                let a = dv.take(k + 1);
                let b = dv.take(k as int);
                if a.contains(x) {
                    let j = choose|j: int| 0 <= j < a.len() && #[trigger] a[j] == x;
                    if j < k {
                        assert(b[j] == x);
                    }
                }
                if b.contains(x) {
                    let j = choose|j: int| 0 <= j < b.len() && #[trigger] b[j] == x;
                    assert(a[j] == x);
                }
                if x == items@[k as int]@ {
                    assert(a[k as int] == x);
                }
            }
        }
        k = k + 1;
    }
    proof {
        assert(items.deep_view().take(items@.len() as int) =~= items.deep_view());
    }
}

/// Distinct machine ids across all routines, sorted.
pub fn distinct_machines_r(routines: &[Routine]) -> (r: Vec<String>)
    ensures
        strictly_sorted(r.deep_view()),
        forall|m: Seq<char>| #[trigger] r.deep_view().contains(m) <==> exists|i: int|
            0 <= i < routines@.len() && (#[trigger] routines@[i]).machines.deep_view().contains(m),
{
    let mut set: Vec<String> = Vec::new();
    let mut i: usize = 0;
    while i < routines.len()
        invariant
            i <= routines@.len(),
            strictly_sorted(set.deep_view()),
            forall|m: Seq<char>| #[trigger] set.deep_view().contains(m) <==> exists|k: int|
                0 <= k < i && (#[trigger] routines@[k]).machines.deep_view().contains(m),
        decreases routines@.len() - i,
    {
        insert_all(&mut set, &routines[i].machines);
        proof {
            assert forall|m: Seq<char>| #[trigger] set.deep_view().contains(m) <==> exists|k: int|
                0 <= k < i + 1 && (#[trigger] routines@[k]).machines.deep_view().contains(m) by {
                if routines@[i as int].machines.deep_view().contains(m) {
                    assert(routines@[i as int].machines.deep_view().contains(m));
                }
            }
        }
        i = i + 1;
    }
    set
}

/// The repository URLs of a repository list, as strings.
fn urls_of(repos: &Vec<Repository>) -> (r: Vec<String>)
    ensures
        r.deep_view() == repos_view(repos@).map_values(|p: (Seq<char>, Option<Seq<char>>)| p.0),
{
    let mut out: Vec<String> = Vec::new();
    let mut i: usize = 0;
    while i < repos.len()
        invariant
            i <= repos@.len(),
            out@.len() == i,
            forall|k: int| 0 <= k < i ==> (#[trigger] out@[k])@ == repos@[k].repository@,
        decreases repos@.len() - i,
    {
        out.push(repos[i].repository.clone());
        i = i + 1;
    }
    proof {
        assert(out.deep_view() =~= repos_view(repos@).map_values(|p: (Seq<char>, Option<Seq<char>>)| p.0));
    }
    out
}

/// Distinct repository URLs across all routines, sorted.
pub fn distinct_repositories(routines: &[Routine]) -> (r: Vec<String>)
    ensures
        strictly_sorted(r.deep_view()),
        forall|u: Seq<char>| #[trigger] r.deep_view().contains(u) <==> exists|i: int|
            0 <= i < routines@.len() && repo_urls((#[trigger] routines@[i])@).contains(u),
{
    let mut set: Vec<String> = Vec::new();
    let mut i: usize = 0;
    while i < routines.len()
        invariant
            i <= routines@.len(),
            strictly_sorted(set.deep_view()),
            forall|u: Seq<char>| #[trigger] set.deep_view().contains(u) <==> exists|k: int|
                0 <= k < i && repo_urls((#[trigger] routines@[k])@).contains(u),
        decreases routines@.len() - i,
    {
        let urls = urls_of(&routines[i].repositories);
        insert_all(&mut set, &urls);
        proof {
            assert(urls.deep_view() == repo_urls(routines@[i as int]@));
            assert forall|u: Seq<char>| #[trigger] set.deep_view().contains(u) <==> exists|k: int|
                0 <= k < i + 1 && repo_urls((#[trigger] routines@[k])@).contains(u) by {
                if repo_urls(routines@[i as int]@).contains(u) {
                    assert(repo_urls(routines@[i as int]@).contains(u));
                }
            }
        }
        i = i + 1;
    }
    set
}

// ─── Status tiles ───────────────────────────────────────────────────────────

/// The counts on the status tiles above the routine table.
#[derive(Debug, Clone, Copy, PartialEq, Eq, Structural)]
pub struct RoutineStats {
    pub total: usize,
    pub enabled: usize,
    pub disabled: usize,
    /// Enabled routines whose next fire lands within the due-soon window.
    pub due_soon: usize,
    /// Routines whose agent is not registered.
    pub unregistered: usize,
}

/// How many routines of `rs` are enabled.
pub open spec fn enabled_routines(rs: Seq<RoutineView>) -> nat
    decreases rs.len(),
{
    if rs.len() == 0 {
        0
    } else {
        enabled_routines(rs.drop_last()) + if rs.last().enabled { 1nat } else { 0nat }
    }
}

/// How many routines of `rs` are enabled and due within `window` of `now`, `nexts[i]`
/// being the next fire of `rs[i]`.
pub open spec fn due_routines(rs: Seq<RoutineView>, nexts: Seq<Option<i64>>, now: i64, window: i64) -> nat
    decreases rs.len(),
{
    if rs.len() == 0 {
        0
    } else {
        due_routines(rs.drop_last(), nexts.drop_last(), now, window) + if rs.last().enabled && due_within(
            nexts.last(),
            now,
            window,
        ) {
            1nat
        } else {
            0nat
        }
    }
}

/// How many routines of `rs` have an unregistered agent.
pub open spec fn unregistered_routines(rs: Seq<RoutineView>) -> nat
    decreases rs.len(),
{
    if rs.len() == 0 {
        0
    } else {
        unregistered_routines(rs.drop_last()) + if !rs.last().agent_registered { 1nat } else { 0nat }
    }
}

/// The tile counts of `rs` when `nexts[i]` is the next fire of `rs[i]`.
pub open spec fn routine_stats_of(
    rs: Seq<RoutineView>,
    nexts: Seq<Option<i64>>,
    now: i64,
    window: i64,
    s: RoutineStats,
) -> bool {
    &&& s.total == rs.len()
    &&& s.enabled == enabled_routines(rs)
    &&& s.disabled == rs.len() - enabled_routines(rs)
    &&& s.due_soon == due_routines(rs, nexts, now, window)
    &&& s.unregistered == unregistered_routines(rs)
}

/// The due routines are among the enabled ones, and every count is at most the total.
pub proof fn lemma_routine_tiles_nest(rs: Seq<RoutineView>, nexts: Seq<Option<i64>>, now: i64, window: i64)
    ensures
        due_routines(rs, nexts, now, window) <= enabled_routines(rs) <= rs.len(),
        unregistered_routines(rs) <= rs.len(),
    decreases rs.len(),
{
    if rs.len() > 0 {
        lemma_routine_tiles_nest(rs.drop_last(), nexts.drop_last(), now, window);
    }
}

/// The tile counts of `routines` when `nexts[i]` is the next fire of `routines[i]`.
pub fn routine_stats_given(routines: &[Routine], nexts: &[Option<i64>], now: i64, window: i64) -> (r: RoutineStats)
    requires
        nexts@.len() == routines@.len(),
    ensures
        routine_stats_of(routines_view(routines@), nexts@, now, window, r),
{
    let ghost all = routines_view(routines@);
    let mut enabled: usize = 0;
    let mut due: usize = 0;
    let mut unreg: usize = 0;
    let mut i: usize = 0;
    while i < routines.len()
        invariant
            i <= routines@.len(),
            nexts@.len() == routines@.len(),
            all == routines_view(routines@),
            enabled == enabled_routines(all.take(i as int)),
            due == due_routines(all.take(i as int), nexts@.take(i as int), now, window),
            unreg == unregistered_routines(all.take(i as int)),
        decreases routines@.len() - i,
    {
        proof {
            let pre = all.take(i as int);
            let post = all.take(i + 1);
            assert(post.drop_last() =~= pre);
            assert(nexts@.take(i + 1).drop_last() =~= nexts@.take(i as int));
            assert(post.last() == routines@[i as int]@);
            assert(nexts@.take(i + 1).last() == nexts@[i as int]);
            lemma_routine_tiles_nest(pre, nexts@.take(i as int), now, window);
        }
        if routines[i].enabled {
            enabled = enabled + 1;
            if is_due_within(nexts[i], now, window) {
                due = due + 1;
            }
        }
        if !routines[i].agent_registered {
            unreg = unreg + 1;
        }
        i = i + 1;
    }
    proof {
        assert(all.take(all.len() as int) =~= all);
        assert(nexts@.take(nexts@.len() as int) =~= nexts@);
        lemma_routine_tiles_nest(all, nexts@, now, window);
    }
    RoutineStats { total: routines.len(), enabled, disabled: routines.len() - enabled, due_soon: due, unregistered: unreg }
}

/// The tile counts of `routines` as of `now`. The next fire of each enabled routine is
/// looked up; whatever comes back, the counts are the ones [`routine_stats_of`] gives for it.
pub fn routine_stats(routines: &[Routine], now: i64, window: i64) -> (r: RoutineStats)
    ensures
        exists|nexts: Seq<Option<i64>>|
            plausible_routine_nexts(routines_view(routines@), nexts, now) && routine_stats_of(
                routines_view(routines@),
                nexts,
                now,
                window,
                r,
            ),
{
    let mut nexts: Vec<Option<i64>> = Vec::new();
    let mut i: usize = 0;
    while i < routines.len()
        invariant
            i <= routines@.len(),
            nexts@.len() == i,
            forall|k: int| 0 <= k < i ==> (#[trigger] nexts@[k] matches Some(t) ==> t > now && schedule_valid(
                routines@[k].schedule@,
            )),
        decreases routines@.len() - i,
    {
        let next = if routines[i].enabled {
            next_fire_after(routines[i].schedule.as_str(), now)
        } else {
            None
        };
        nexts.push(next);
        i = i + 1;
    }
    proof {
        assert(plausible_routine_nexts(routines_view(routines@), nexts@, now));
    }
    routine_stats_given(routines, nexts.as_slice(), now, window)
}

impl RoutineStatusFacet {
    /// The facet that a click on the tile of `tile` selects while `self` is active: that
    /// tile's facet, or `All` again when it is the active one.
    pub fn toggled(self, tile: RoutineStatusFacet) -> (r: RoutineStatusFacet)
        ensures
            r == (if self == tile { RoutineStatusFacet::All } else { tile }),
    {
        if self == tile {
            RoutineStatusFacet::All
        } else {
            tile
        }
    }
}

// ─── Pages and views ────────────────────────────────────────────────────────

/// Which page of the routines tab is showing.
#[derive(Debug, PartialEq)]
pub enum RPage {
    List,
    New,
    Logs(String),
    Flags(String),
    /// The create form pre-filled from a copy of an existing routine.
    Clone(Box<Routine>),
}

/// The mathematical content of an [`RPage`].
pub enum RPageView {
    List,
    New,
    Logs(Seq<char>),
    Flags(Seq<char>),
    Clone(RoutineView),
}

impl View for RPage {
    type V = RPageView;

    open spec fn view(&self) -> RPageView {
        match self {
            RPage::List => RPageView::List,
            RPage::New => RPageView::New,
            RPage::Logs(id) => RPageView::Logs(id@),
            RPage::Flags(id) => RPageView::Flags(id@),
            RPage::Clone(r) => RPageView::Clone((**r)@),
        }
    }
}

impl Clone for RPage {
    fn clone(&self) -> (r: Self)
        ensures
            r@ == self@,
    {
        match self {
            RPage::List => RPage::List,
            RPage::New => RPage::New,
            RPage::Logs(id) => RPage::Logs(id.clone()),
            RPage::Flags(id) => RPage::Flags(id.clone()),
            RPage::Clone(r) => RPage::Clone(Box::new((**r).clone())),
        }
    }
}

/// The dialog open over the routines page, if any.
#[derive(Debug, PartialEq)]
pub enum RModal {
    Closed,
    Edit(String),
    ConfirmDelete { id: String, title: String },
    ConfirmBulkDelete { count: usize },
}

/// The mathematical content of an [`RModal`].
pub enum RModalView {
    Closed,
    Edit(Seq<char>),
    ConfirmDelete { id: Seq<char>, title: Seq<char> },
    ConfirmBulkDelete { count: usize },
}

impl View for RModal {
    type V = RModalView;

    open spec fn view(&self) -> RModalView {
        match self {
            RModal::Closed => RModalView::Closed,
            RModal::Edit(id) => RModalView::Edit(id@),
            RModal::ConfirmDelete { id, title } => RModalView::ConfirmDelete { id: id@, title: title@ },
            RModal::ConfirmBulkDelete { count } => RModalView::ConfirmBulkDelete { count: *count },
        }
    }
}

impl Clone for RModal {
    fn clone(&self) -> (r: Self)
        ensures
            r@ == self@,
    {
        match self {
            RModal::Closed => RModal::Closed,
            RModal::Edit(id) => RModal::Edit(id.clone()),
            RModal::ConfirmDelete { id, title } => RModal::ConfirmDelete { id: id.clone(), title: title.clone() },
            RModal::ConfirmBulkDelete { count } => RModal::ConfirmBulkDelete { count: *count },
        }
    }
}

/// How the list page presents routines: a table, a month calendar, or one day.
#[derive(Debug, Clone, Copy, PartialEq, Eq, Structural)]
pub enum RView {
    Table,
    Calendar,
    Day,
}

impl Default for RView {
    fn default() -> (r: Self)
        ensures
            r == RView::Table,
    {
        RView::Table
    }
}

/// The column the routine table is sorted by.
#[derive(Debug, Clone, Copy, PartialEq, Eq, Structural)]
pub enum RCol {
    Title,
    NextRun,
    LastFire,
    Agent,
    Health,
    Enabled,
    Updated,
}

/// Sort direction of the routine table.
#[derive(Debug, Clone, Copy, PartialEq, Eq, Structural)]
pub enum RDir {
    Asc,
    Desc,
}

impl Default for RDir {
    fn default() -> (r: Self)
        ensures
            r == RDir::Asc,
    {
        RDir::Asc
    }
}

/// The opposite routine sort direction.
pub open spec fn rdir_flipped(d: RDir) -> RDir {
    match d {
        RDir::Asc => RDir::Desc,
        RDir::Desc => RDir::Asc,
    }
}

impl RDir {
    /// The opposite direction.
    pub fn flip(self) -> (r: Self)
        ensures
            r == rdir_flipped(self),
    {
        match self {
            RDir::Asc => RDir::Desc,
            RDir::Desc => RDir::Asc,
        }
    }
}

// ─── Group-by ───────────────────────────────────────────────────────────────

/// Dimension the routine table is grouped into labelled sections by. `Flat` (the
/// default) keeps one flat list.
#[derive(Debug, Clone, Copy, PartialEq, Eq, Structural)]
pub enum RGroupBy {
    Flat,
    /// By agent name.
    Agent,
    /// By first target machine; routines with no machine share an `(unassigned)` section.
    Machine,
    /// By enabled/disabled status.
    Status,
}

impl Default for RGroupBy {
    fn default() -> (r: Self)
        ensures
            r == RGroupBy::Flat,
    {
        RGroupBy::Flat
    }
}

/// The selector token of a group-by dimension.
pub open spec fn rgroup_token(g: RGroupBy) -> Seq<char> {
    match g {
        RGroupBy::Flat => "none"@,
        RGroupBy::Agent => "agent"@,
        RGroupBy::Machine => "machine"@,
        RGroupBy::Status => "status"@,
    }
}

/// The dimension a selector token names; anything unknown is `Flat`.
pub open spec fn rgroup_from_token(s: Seq<char>) -> RGroupBy {
    if s == "agent"@ {
        RGroupBy::Agent
    } else if s == "machine"@ {
        RGroupBy::Machine
    } else if s == "status"@ {
        RGroupBy::Status
    } else {
        RGroupBy::Flat
    }
}

/// The label shown for a group-by dimension in the selector.
pub open spec fn rgroup_label(g: RGroupBy) -> Seq<char> {
    match g {
        RGroupBy::Flat => "None"@,
        RGroupBy::Agent => "Agent"@,
        RGroupBy::Machine => "Machine"@,
        RGroupBy::Status => "Status"@,
    }
}

impl RGroupBy {
    /// Stable token stored as the selector option value.
    pub fn as_str(self) -> (r: &'static str)
        ensures
            r@ == rgroup_token(self),
    {
        match self {
            RGroupBy::Flat => "none",
            RGroupBy::Agent => "agent",
            RGroupBy::Machine => "machine",
            RGroupBy::Status => "status",
        }
    }

    /// The dimension a token names, `Flat` for anything unknown.
    pub fn from_str(s: &str) -> (r: Self)
        ensures
            r == rgroup_from_token(s@),
    {
        if same_text(s, "agent") {
            RGroupBy::Agent
        } else if same_text(s, "machine") {
            RGroupBy::Machine
        } else if same_text(s, "status") {
            RGroupBy::Status
        } else {
            RGroupBy::Flat
        }
    }

    /// Short human label shown in the selector.
    pub fn label(self) -> (r: &'static str)
        ensures
            r@ == rgroup_label(self),
    {
        match self {
            RGroupBy::Flat => "None",
            RGroupBy::Agent => "Agent",
            RGroupBy::Machine => "Machine",
            RGroupBy::Status => "Status",
        }
    }
}

/// The section a routine falls in under `by`.
pub open spec fn routine_group_key_of(j: RoutineView, by: RGroupBy) -> Seq<char> {
    match by {
        RGroupBy::Flat => seq![],
        RGroupBy::Agent => j.agent,
        RGroupBy::Machine => if j.machines.len() > 0 {
            j.machines[0]
        } else {
            "(unassigned)"@
        },
        RGroupBy::Status => if j.enabled {
            "Enabled"@
        } else {
            "Disabled"@
        },
    }
}

/// The routines of `routines` in section `label` under `by`, in input order.
pub open spec fn routine_group_members(routines: Seq<RoutineView>, by: RGroupBy, label: Seq<char>) -> Seq<RoutineView> {
    routines.filter(|j: RoutineView| routine_group_key_of(j, by) == label)
}

/// The section label of a routine under `by`: a routine always belongs to exactly one
/// section.
pub fn routine_group_key(rt: &Routine, by: RGroupBy) -> (r: String)
    ensures
        r@ == routine_group_key_of(rt@, by),
{
    match by {
        RGroupBy::Flat => String::new(),
        RGroupBy::Agent => rt.agent.clone(),
        RGroupBy::Machine => if rt.machines.len() > 0 {
            rt.machines[0].clone()
        } else {
            owned("(unassigned)")
        },
        RGroupBy::Status => if rt.enabled {
            owned("Enabled")
        } else {
            owned("Disabled")
        },
    }
}

/// A copy of a routine list.
pub fn clone_routines(routines: &[Routine]) -> (r: Vec<Routine>)
    ensures
        routines_view(r@) == routines_view(routines@),
{
    let mut out: Vec<Routine> = Vec::new();
    let mut i: usize = 0;
    while i < routines.len()
        invariant
            i <= routines@.len(),
            routines_view(out@) == routines_view(routines@.take(i as int)),
        decreases routines@.len() - i,
    {
        let ghost before = out@;
        out.push(routines[i].clone());
        proof {
            assert(routines@.take(i + 1) =~= routines@.take(i as int).push(routines@[i as int]));
            assert(routines_view(out@) =~= routines_view(before).push(routines@[i as int]@));
            assert(routines_view(out@) =~= routines_view(routines@.take(i + 1)));
        }
        i = i + 1;
    }
    proof {
        assert(routines@.take(routines@.len() as int) =~= routines@);
    }
    out
}

proof fn lemma_routine_members_push(pre: Seq<RoutineView>, rt: RoutineView, by: RGroupBy, label: Seq<char>)
    ensures
        routine_group_members(pre.push(rt), by, label) == (if routine_group_key_of(rt, by) == label {
            routine_group_members(pre, by, label).push(rt)
        } else {
            routine_group_members(pre, by, label)
        }),
{
    reveal(Seq::filter);
    assert(pre.push(rt).drop_last() =~= pre);
}

/// `routines` partitioned into `(label, members)` sections sorted by label in text order,
/// one per label that some routine has; within a section the input order is kept.
/// Under `Flat` a single section with an empty label holds every routine.
pub fn group_routines(routines: &[Routine], by: RGroupBy) -> (r: Vec<(String, Vec<Routine>)>)
    ensures
        by == RGroupBy::Flat ==> r@.len() == 1 && r@[0].0@ == Seq::<char>::empty() && routines_view(r@[0].1@)
            == routines_view(routines@),
        by != RGroupBy::Flat ==> {
            &&& strictly_sorted(r@.map_values(|g: (String, Vec<Routine>)| g.0@))
            &&& forall|label: Seq<char>|
                #![trigger routine_group_members(routines_view(routines@), by, label)]
                r@.map_values(|g: (String, Vec<Routine>)| g.0@).contains(label) <==> routine_group_members(
                    routines_view(routines@),
                    by,
                    label,
                ).len() > 0
            &&& forall|g: int|
                0 <= g < r@.len() ==> routines_view((#[trigger] r@[g]).1@) == routine_group_members(
                    routines_view(routines@),
                    by,
                    r@[g].0@,
                )
        },
{
    if by == RGroupBy::Flat {
        return vec![(String::new(), clone_routines(routines))];
    }
    let mut labels: Vec<String> = Vec::new();
    let mut groups: Vec<Vec<Routine>> = Vec::new();
    let mut i: usize = 0;
    while i < routines.len()
        invariant
            i <= routines@.len(),
            labels@.len() == groups@.len(),
            strictly_sorted(labels.deep_view()),
            forall|label: Seq<char>|
                #![trigger routine_group_members(routines_view(routines@.take(i as int)), by, label)]
                labels.deep_view().contains(label) <==> routine_group_members(routines_view(routines@.take(i as int)), by, label).len() > 0,
            forall|g: int|
                0 <= g < groups@.len() ==> routines_view(#[trigger] groups@[g]@) == routine_group_members(
                    routines_view(routines@.take(i as int)),
                    by,
                    labels.deep_view()[g],
                ),
        decreases routines@.len() - i,
    {
        let rt = &routines[i];
        let key = routine_group_key(rt, by);
        let ghost pre = routines_view(routines@.take(i as int));
        let ghost post = routines_view(routines@.take(i + 1));
        let ghost l0 = labels.deep_view();
        let ghost g0 = groups@;
        proof {
            assert(post =~= pre.push(rt@));
        }
        let (p, found) = search_sorted(&labels, key.as_str());
        if found {
            let mut members = groups.remove(p);
            members.push(rt.clone());
            let ghost m1 = members;
            groups.insert(p, members);
            proof {
                assert(groups@ =~= g0.update(p as int, m1));
                assert(labels.deep_view() == l0);
                assert forall|label: Seq<char>|
                    #![trigger routine_group_members(post, by, label)]
                    l0.contains(label) <==> routine_group_members(post, by, label).len() > 0 by {
                    lemma_routine_members_push(pre, rt@, by, label);
                    if label == key@ {
                        assert(l0[p as int] == label);
                    }
                }
                assert forall|g: int| 0 <= g < groups@.len() implies routines_view(#[trigger] groups@[g]@)
                    == routine_group_members(post, by, l0[g]) by {
                    lemma_routine_members_push(pre, rt@, by, l0[g]);
                    if g == p {
                        assert(routines_view(groups@[g]@) =~= routines_view(g0[g]@).push(rt@));
                    } else {
                        assert(groups@[g] == g0[g]);
                        assert(l0[g] != l0[p as int]);
                    }
                }
            }
        } else {
            let mut members: Vec<Routine> = Vec::new();
            members.push(rt.clone());
            labels.insert(p, key);
            groups.insert(p, members);
            proof {
                let l1 = labels.deep_view();
                assert(l1 =~= l0.insert(p as int, key@));
                assert(routine_group_members(pre, by, key@).len() == 0);
                assert forall|label: Seq<char>|
                    #![trigger routine_group_members(post, by, label)]
                    l1.contains(label) <==> routine_group_members(post, by, label).len() > 0 by {
                    lemma_routine_members_push(pre, rt@, by, label);
                    if l0.contains(label) {
                        let k = choose|k: int| 0 <= k < l0.len() && l0[k] == label;
                        if k < p {
                            assert(l1[k] == label);
                        } else {
                            assert(l1[k + 1] == label);
                        }
                    }
                    if label == key@ {
                        assert(l1[p as int] == label);
                    }
                    if l1.contains(label) {
                        let k = choose|k: int| 0 <= k < l1.len() && l1[k] == label;
                        if k < p {
                            assert(l0[k] == label);
                        } else if k > p {
                            assert(l0[k - 1] == label);
                        }
                    }
                }
                assert forall|g: int| 0 <= g < groups@.len() implies routines_view(#[trigger] groups@[g]@)
                    == routine_group_members(post, by, l1[g]) by {
                    lemma_routine_members_push(pre, rt@, by, l1[g]);
                    if g == p {
                        assert(routine_group_members(pre, by, key@) =~= Seq::<RoutineView>::empty());
                        assert(routines_view(groups@[g]@) =~= seq![rt@]);
                    } else if g < p {
                        assert(groups@[g] == g0[g]);
                        assert(l1[g] == l0[g]);
                        assert(l1[g] != l1[p as int]);
                    } else {
                        assert(groups@[g] == g0[g - 1]);
                        assert(l1[g] == l0[g - 1]);
                        assert(l1[g] != l1[p as int]);
                    }
                }
            }
        }
        i = i + 1;
    }
    proof {
        assert(routines@.take(routines@.len() as int) =~= routines@);
    }
    let mut out: Vec<(String, Vec<Routine>)> = Vec::new();
    let mut k: usize = 0;
    while k < labels.len()
        invariant
            k <= labels@.len(),
            labels@.len() == groups@.len(),
            out@.len() == k,
            forall|g: int|
                0 <= g < k ==> (#[trigger] out@[g]).0@ == labels.deep_view()[g] && routines_view(out@[g].1@)
                    == routines_view(groups@[g]@),
        decreases labels@.len() - k,
    {
        out.push((labels[k].clone(), clone_routines(groups[k].as_slice())));
        k = k + 1;
    }
    proof {
        assert(out@.map_values(|g: (String, Vec<Routine>)| g.0@) =~= labels.deep_view());
    }
    out
}

// ─── Column sort ────────────────────────────────────────────────────────────

/// The next fire that sorts a routine: none for a disabled one.
pub open spec fn routine_effective_next(r: RoutineView, next: Option<i64>) -> Option<i64> {
    if r.enabled {
        next
    } else {
        None
    }
}

/// Ascending order of the sort column `col` as of `now` (`na`, `nb`: the routines' next
/// fires). Titles and agents compare in lowercase.
pub open spec fn routine_column_le(
    col: RCol,
    a: RoutineView,
    b: RoutineView,
    na: Option<i64>,
    nb: Option<i64>,
    now: i64,
) -> bool {
    match col {
        RCol::Title => text_le(unicode_lowercase(a.title), unicode_lowercase(b.title)),
        RCol::Agent => text_le(unicode_lowercase(a.agent), unicode_lowercase(b.agent)),
        RCol::Enabled => !a.enabled || b.enabled,
        RCol::Updated => a.updated_at <= b.updated_at,
        RCol::Health => health_priority(health_of(a, na is Some, now)) <= health_priority(health_of(b, nb is Some, now)),
        RCol::LastFire => stamp_le(last_fire_of(a), last_fire_of(b)),
        RCol::NextRun => soonest_le(routine_effective_next(a, na), routine_effective_next(b, nb)),
    }
}

/// Table order: the sort column in direction `dir`, then the id ascending.
pub open spec fn routine_order_le(
    col: RCol,
    dir: RDir,
    a: RoutineView,
    b: RoutineView,
    na: Option<i64>,
    nb: Option<i64>,
    now: i64,
) -> bool {
    let ab = if dir == RDir::Asc { routine_column_le(col, a, b, na, nb, now) } else { routine_column_le(col, b, a, nb, na, now) };
    let ba = if dir == RDir::Asc { routine_column_le(col, b, a, nb, na, now) } else { routine_column_le(col, a, b, na, nb, now) };
    ||| ab && !ba
    ||| ab && ba && text_le(a.id, b.id)
}

spec fn routine_col_key_of(k: ColKey, col: RCol, r: RoutineView, next: Option<i64>, now: i64) -> bool {
    match (col, k) {
        (RCol::Title, ColKey::Text(v)) => v@ == unicode_lowercase(r.title),
        (RCol::Agent, ColKey::Text(v)) => v@ == unicode_lowercase(r.agent),
        (RCol::Enabled, ColKey::Flag(e)) => e == r.enabled,
        (RCol::Updated, ColKey::Number(u)) => u == r.updated_at,
        (RCol::Health, ColKey::Number(p)) => p == health_priority(health_of(r, next is Some, now)),
        (RCol::LastFire, ColKey::Stamp(t)) => t == last_fire_of(r),
        (RCol::NextRun, ColKey::Soonest(n)) => n == routine_effective_next(r, next),
        _ => false,
    }
}

fn routine_column_key(rt: &Routine, col: RCol, next: Option<i64>, now: i64) -> (k: ColKey)
    ensures
        routine_col_key_of(k, col, rt@, next, now),
{
    match col {
        RCol::Title => ColKey::Text(lowercase_chars(rt.title.as_str())),
        RCol::Agent => ColKey::Text(lowercase_chars(rt.agent.as_str())),
        RCol::Enabled => ColKey::Flag(rt.enabled),
        RCol::Updated => ColKey::Number(rt.updated_at),
        RCol::Health => ColKey::Number(health_given(rt, next.is_some(), now).priority() as u64),
        RCol::LastFire => ColKey::Stamp(last_fire_at(rt)),
        RCol::NextRun => ColKey::Soonest(if rt.enabled { next } else { None }),
    }
}

proof fn lemma_routine_col_key_le(
    k1: ColKey,
    k2: ColKey,
    col: RCol,
    a: RoutineView,
    b: RoutineView,
    na: Option<i64>,
    nb: Option<i64>,
    now: i64,
)
    requires
        routine_col_key_of(k1, col, a, na, now),
        routine_col_key_of(k2, col, b, nb, now),
    ensures
        k1.key_le(k2) == routine_column_le(col, a, b, na, nb, now),
{
}

/// `routines` in table order for column `col` and direction `dir` as of `now` (see
/// [`routine_order_le`]), ties kept in input order; `nexts[i]` is the next fire of `routines[i]`.
pub fn sort_routines_by(routines: Vec<Routine>, col: RCol, dir: RDir, nexts: &[Option<i64>], now: i64) -> (r: Vec<Routine>)
    requires
        nexts@.len() == routines@.len(),
    ensures
        is_stable_sort_at(
            routines_view(r@),
            routines_view(routines@),
            |i: int, j: int| routine_order_le(col, dir, routines@[i]@, routines@[j]@, nexts@[i], nexts@[j], now),
        ),
{
    let ghost j0 = routines@;
    let mut items = routines;
    let ghost le = |i: int, j: int| routine_order_le(col, dir, j0[i]@, j0[j]@, nexts@[i], nexts@[j], now);
    if dir == RDir::Asc {
        let mut keys: Vec<Pair<ColKey, Text>> = Vec::new();
        let mut i: usize = 0;
        while i < items.len()
            invariant
                i <= items@.len(),
                items@ == j0,
                nexts@.len() == j0.len(),
                keys@.len() == i,
                forall|k: int| 0 <= k < i ==> routine_col_key_of((#[trigger] keys@[k]).first, col, j0[k]@, nexts@[k], now)
                    && keys@[k].second.chars@ == j0[k]@.id,
            decreases items@.len() - i,
        {
            let key = Pair {
                first: routine_column_key(&items[i], col, nexts[i], now),
                second: Text { chars: chars_of(items[i].id.as_str()) },
            };
            keys.push(key);
            i = i + 1;
        }
        let ghost ks = keys@;
        let perm = stable_sort(&mut items, &mut keys);
        proof {
            assert forall|a: int, b: int| 0 <= a < j0.len() && 0 <= b < j0.len() implies (#[trigger] ks[a]).key_le(
                #[trigger] ks[b],
            ) == le(a, b) by {
                lemma_routine_col_key_le(ks[a].first, ks[b].first, col, j0[a]@, j0[b]@, nexts@[a], nexts@[b], now);
                lemma_routine_col_key_le(ks[b].first, ks[a].first, col, j0[b]@, j0[a]@, nexts@[b], nexts@[a], now);
            }
            lemma_sorted_at(items@, j0, ks, perm@, le);
        }
    } else {
        let mut keys: Vec<Pair<Rev<ColKey>, Text>> = Vec::new();
        let mut i: usize = 0;
        while i < items.len()
            invariant
                i <= items@.len(),
                items@ == j0,
                nexts@.len() == j0.len(),
                keys@.len() == i,
                forall|k: int| 0 <= k < i ==> routine_col_key_of((#[trigger] keys@[k]).first.inner, col, j0[k]@, nexts@[k], now)
                    && keys@[k].second.chars@ == j0[k]@.id,
            decreases items@.len() - i,
        {
            let key = Pair {
                first: Rev { inner: routine_column_key(&items[i], col, nexts[i], now) },
                second: Text { chars: chars_of(items[i].id.as_str()) },
            };
            keys.push(key);
            i = i + 1;
        }
        let ghost ks = keys@;
        let perm = stable_sort(&mut items, &mut keys);
        proof {
            assert forall|a: int, b: int| 0 <= a < j0.len() && 0 <= b < j0.len() implies (#[trigger] ks[a]).key_le(
                #[trigger] ks[b],
            ) == le(a, b) by {
                lemma_routine_col_key_le(ks[a].first.inner, ks[b].first.inner, col, j0[a]@, j0[b]@, nexts@[a], nexts@[b], now);
                lemma_routine_col_key_le(ks[b].first.inner, ks[a].first.inner, col, j0[b]@, j0[a]@, nexts@[b], nexts@[a], now);
            }
            lemma_sorted_at(items@, j0, ks, perm@, le);
        }
    }
    items
}

/// `routines` sorted by `col` in `dir` order, ties broken by id, then by input order; with no
/// column the input order is kept. The NEXT RUN and HEALTH columns look up each enabled
/// routine's next fire after `now`; whatever comes back, the order is the one
/// [`routine_order_le`] gives for it.
pub fn sort_routines(routines: Vec<Routine>, col: Option<RCol>, dir: RDir, now: i64) -> (r: Vec<Routine>)
    ensures
        col is None ==> routines_view(r@) == routines_view(routines@),
        col matches Some(c) ==> exists|nexts: Seq<Option<i64>>|
            {
                &&& plausible_routine_nexts(routines_view(routines@), nexts, now)
                &&& is_stable_sort_at(
                    routines_view(r@),
                    routines_view(routines@),
                    |i: int, j: int| routine_order_le(c, dir, routines@[i]@, routines@[j]@, nexts[i], nexts[j], now),
                )
            },
{
    let c = match col {
        Some(c) => c,
        None => return routines,
    };
    let mut nexts: Vec<Option<i64>> = Vec::new();
    let mut i: usize = 0;
    while i < routines.len()
        invariant
            i <= routines@.len(),
            nexts@.len() == i,
            forall|k: int| 0 <= k < i ==> (#[trigger] nexts@[k] matches Some(t) ==> t > now && schedule_valid(
                routines@[k].schedule@,
            )),
        decreases routines@.len() - i,
    {
        let next = if (c == RCol::NextRun || c == RCol::Health) && routines[i].enabled {
            next_fire_after(routines[i].schedule.as_str(), now)
        } else {
            None
        };
        nexts.push(next);
        i = i + 1;
    }
    proof {
        assert(plausible_routine_nexts(routines_view(routines@), nexts@, now));
    }
    sort_routines_by(routines, c, dir, nexts.as_slice(), now)
}

// ─── Page state ─────────────────────────────────────────────────────────────

/// Global routine lock state as the server reports it.
#[derive(Debug, Clone, Copy, PartialEq, Eq, Structural)]
pub struct LockStatus {
    pub shared: bool,
    pub local: bool,
    pub locked: bool,
}

impl Default for LockStatus {
    fn default() -> (r: Self)
        ensures
            !r.shared && !r.local && !r.locked,
    {
        LockStatus { shared: false, local: false, locked: false }
    }
}

/// Whether a flag file is committed to version control or kept machine-local.
#[derive(Debug, Clone, Copy, PartialEq, Eq, Structural)]
pub enum FlagScope {
    General,
    Local,
}

/// A flag raised against a routine.
#[derive(Debug, PartialEq)]
pub struct Flag {
    pub filename: String,
    pub flag_type: String,
    pub description: String,
    pub scope: FlagScope,
    pub created_at: u64,
}

/// Body of a create-routine request.
#[derive(Debug, PartialEq)]
pub struct CreateRoutineRequest {
    pub schedule: String,
    pub title: String,
    pub agent: String,
    pub prompt: String,
    pub repositories: Vec<Repository>,
    /// Machines to run on; empty runs nowhere until assigned.
    pub machines: Vec<String>,
    pub enabled: bool,
    /// Workbench retention (seconds); `None` lets the server apply its default.
    pub ttl_secs: Option<u64>,
    pub tags: Vec<String>,
}

/// Result of a cleanup request: how many finished workbenches were removed.
#[derive(Debug, Clone, Copy, PartialEq, Eq, Structural)]
pub struct CleanupResponse {
    pub removed: usize,
}

/// Body of an update-routine request: only the fields that are set change.
#[derive(Debug, PartialEq)]
pub struct UpdateRoutineRequest {
    pub schedule: Option<String>,
    pub title: Option<String>,
    pub agent: Option<String>,
    pub prompt: Option<String>,
    pub repositories: Option<Vec<Repository>>,
    pub machines: Option<Vec<String>>,
    pub enabled: Option<bool>,
    pub ttl_secs: Option<u64>,
    pub tags: Option<Vec<String>>,
}

impl Default for UpdateRoutineRequest {
    fn default() -> (r: Self)
        ensures
            r.schedule is None && r.title is None && r.agent is None && r.prompt is None && r.repositories is None
                && r.machines is None && r.enabled is None && r.ttl_secs is None && r.tags is None,
    {
        UpdateRoutineRequest {
            schedule: None,
            title: None,
            agent: None,
            prompt: None,
            repositories: None,
            machines: None,
            enabled: None,
            ttl_secs: None,
            tags: None,
        }
    }
}

/// The routines page state. `selected` holds the ids of the selected routines as a
/// sorted list without repeats (see [`RState::wf`]).
#[derive(Debug, PartialEq)]
pub struct RState {
    pub routines: Vec<Routine>,
    pub loading: bool,
    pub page: RPage,
    pub modal: RModal,
    pub view: RView,
    pub filter: RoutineFilter,
    /// The column the table is sorted by; `None` keeps the natural order.
    pub sort_col: Option<RCol>,
    pub sort_dir: RDir,
    /// Ids of the selected routines.
    pub selected: Vec<String>,
    pub group_by: RGroupBy,
    /// The last fetched lock status; `None` until the first fetch completes.
    pub lock_status: Option<LockStatus>,
    /// This machine's name as the daemon resolved it.
    pub current_machine: Option<String>,
}

/// The mathematical content of an [`RState`]: the selection is a set of ids.
pub struct RStateView {
    pub routines: Seq<RoutineView>,
    pub loading: bool,
    pub page: RPageView,
    pub modal: RModalView,
    pub view: RView,
    pub filter: RoutineFilterView,
    pub sort_col: Option<RCol>,
    pub sort_dir: RDir,
    pub selected: Set<Seq<char>>,
    pub group_by: RGroupBy,
    pub lock_status: Option<LockStatus>,
    pub current_machine: Option<Seq<char>>,
}

impl View for RState {
    type V = RStateView;

    open spec fn view(&self) -> RStateView {
        RStateView {
            routines: routines_view(self.routines@),
            loading: self.loading,
            page: self.page@,
            modal: self.modal@,
            view: self.view,
            filter: self.filter@,
            sort_col: self.sort_col,
            sort_dir: self.sort_dir,
            selected: self.selected.deep_view().to_set(),
            group_by: self.group_by,
            lock_status: self.lock_status,
            current_machine: opt_text(self.current_machine),
        }
    }
}

impl RState {
    /// Well-formedness: the selection list is sorted and holds no id twice.
    pub open spec fn wf(&self) -> bool {
        strictly_sorted(self.selected.deep_view())
    }
}

/// The state the routines page starts in: loading, nothing selected, no filter or sort.
pub open spec fn initial_rstate() -> RStateView {
    RStateView {
        routines: seq![],
        loading: true,
        page: RPageView::List,
        modal: RModalView::Closed,
        view: RView::Table,
        filter: open_routine_filter(),
        sort_col: None,
        sort_dir: RDir::Asc,
        selected: Set::empty(),
        group_by: RGroupBy::Flat,
        lock_status: None,
        current_machine: None,
    }
}

impl Default for RState {
    fn default() -> (r: Self)
        ensures
            r.wf(),
            r@ == initial_rstate(),
    {
        let r = RState {
            routines: Vec::new(),
            loading: true,
            page: RPage::List,
            modal: RModal::Closed,
            view: RView::Table,
            filter: RoutineFilter::default(),
            sort_col: None,
            sort_dir: RDir::Asc,
            selected: Vec::new(),
            group_by: RGroupBy::Flat,
            lock_status: None,
            current_machine: None,
        };
        proof {
            assert(r.selected.deep_view().to_set() =~= Set::<Seq<char>>::empty());
            assert(routines_view(r.routines@) =~= Seq::<RoutineView>::empty());
        }
        r
    }
}

impl Clone for RState {
    fn clone(&self) -> (r: Self)
        ensures
            r@ == self@,
            r.selected.deep_view() == self.selected.deep_view(),
    {
        RState {
            routines: clone_routines(self.routines.as_slice()),
            loading: self.loading,
            page: self.page.clone(),
            modal: self.modal.clone(),
            view: self.view,
            filter: self.filter.clone(),
            sort_col: self.sort_col,
            sort_dir: self.sort_dir,
            selected: clone_strings(&self.selected),
            group_by: self.group_by,
            lock_status: self.lock_status,
            current_machine: clone_opt_string(&self.current_machine),
        }
    }
}

/// An event on the routines page.
pub enum RAction {
    Loaded(Vec<Routine>),
    GoToNew,
    GoToList,
    GoToLogs(String),
    GoToFlags(String),
    /// Open the create form pre-filled with a copy of the routine with this id.
    GoToClone(String),
    OpenEdit(String),
    OpenConfirmDelete { id: String, title: String },
    OpenConfirmBulkDelete,
    CloseModal,
    SetView(RView),
    SetQuery(String),
    SetStatusFacet(RoutineStatusFacet),
    SetAgentFacet(AgentFacet),
    SetMachineFacet(RoutineMachineFacet),
    SetRepositoryFacet(RepositoryFacet),
    ClearFilters,
    SetGroupBy(RGroupBy),
    /// Sort by a column; picking the active column again reverses the direction.
    SortByCol(RCol),
    Upsert(Box<Routine>),
    Remove(String),
    /// Remove several routines after a confirmed bulk delete.
    RemoveMany(Vec<String>),
    /// Toggle one routine in or out of the selection.
    SelectRoutine(String),
    /// Select exactly these (visible) ids.
    SelectAll(Vec<String>),
    ClearSelection,
    LockStatusLoaded(LockStatus),
    /// The daemon resolved this machine's name; the machine facet narrows to it.
    CurrentMachineLoaded(String),
}

/// The ids of a routine list, in order.
pub open spec fn routine_ids(rs: Seq<RoutineView>) -> Seq<Seq<char>> {
    rs.map_values(|r: RoutineView| r.id)
}

/// The routines of `rs` whose id is not in `gone`, in order.
pub open spec fn kept_routines(rs: Seq<RoutineView>, gone: Set<Seq<char>>) -> Seq<RoutineView> {
    rs.filter(|r: RoutineView| !gone.contains(r.id))
}

/// `rs` with `r` in place of the first routine with its id, or appended when none has it.
pub open spec fn routine_upserted(rs: Seq<RoutineView>, r: RoutineView) -> Seq<RoutineView> {
    match routine_ids(rs).index_of_first(r.id) {
        Some(i) => rs.update(i, r),
        None => rs.push(r),
    }
}

/// The routines page state after `a`.
pub open spec fn r_step(s: RStateView, a: RAction) -> RStateView {
    match a {
        RAction::Loaded(rs) => {
            let ids = routine_ids(routines_view(rs@)).to_set();
            RStateView { routines: routines_view(rs@), loading: false, selected: s.selected.intersect(ids), ..s }
        },
        RAction::GoToNew => RStateView { page: RPageView::New, ..s },
        RAction::GoToList => RStateView { page: RPageView::List, ..s },
        RAction::GoToLogs(id) => RStateView { page: RPageView::Logs(id@), ..s },
        RAction::GoToFlags(id) => RStateView { page: RPageView::Flags(id@), ..s },
        RAction::GoToClone(id) => match routine_ids(s.routines).index_of_first(id@) {
            Some(i) => RStateView { page: RPageView::Clone(s.routines[i]), ..s },
            None => s,
        },
        RAction::OpenEdit(id) => RStateView { modal: RModalView::Edit(id@), ..s },
        RAction::OpenConfirmDelete { id, title } => RStateView {
            modal: RModalView::ConfirmDelete { id: id@, title: title@ },
            ..s
        },
        RAction::OpenConfirmBulkDelete => RStateView {
            modal: RModalView::ConfirmBulkDelete { count: s.selected.len() as usize },
            ..s
        },
        RAction::CloseModal => RStateView { modal: RModalView::Closed, ..s },
        RAction::SetView(v) => RStateView { view: v, ..s },
        RAction::SetQuery(q) => RStateView { filter: RoutineFilterView { query: q@, ..s.filter }, ..s },
        RAction::SetStatusFacet(f) => RStateView { filter: RoutineFilterView { status: f, ..s.filter }, ..s },
        RAction::SetAgentFacet(f) => RStateView { filter: RoutineFilterView { agent: f@, ..s.filter }, ..s },
        RAction::SetMachineFacet(m) => RStateView { filter: RoutineFilterView { machine: m@, ..s.filter }, ..s },
        RAction::SetRepositoryFacet(f) => RStateView { filter: RoutineFilterView { repository: f@, ..s.filter }, ..s },
        RAction::ClearFilters => RStateView { filter: open_routine_filter(), ..s },
        RAction::SetGroupBy(by) => RStateView { group_by: by, ..s },
        RAction::SortByCol(col) => if s.sort_col == Some(col) {
            RStateView { sort_dir: rdir_flipped(s.sort_dir), ..s }
        } else {
            RStateView { sort_col: Some(col), sort_dir: RDir::Asc, ..s }
        },
        RAction::Upsert(r) => RStateView { routines: routine_upserted(s.routines, (*r)@), ..s },
        RAction::Remove(id) => RStateView {
            routines: kept_routines(s.routines, set![id@]),
            selected: s.selected.remove(id@),
            ..s
        },
        RAction::RemoveMany(ids) => {
            let gone = ids.deep_view().to_set();
            RStateView { routines: kept_routines(s.routines, gone), selected: s.selected.difference(gone), ..s }
        },
        RAction::SelectRoutine(id) => RStateView {
            selected: if s.selected.contains(id@) {
                s.selected.remove(id@)
            } else {
                s.selected.insert(id@)
            },
            ..s
        },
        RAction::SelectAll(ids) => RStateView { selected: ids.deep_view().to_set(), ..s },
        RAction::ClearSelection => RStateView { selected: Set::empty(), ..s },
        RAction::LockStatusLoaded(status) => RStateView { lock_status: Some(status), ..s },
        RAction::CurrentMachineLoaded(name) => RStateView {
            current_machine: Some(name@),
            filter: RoutineFilterView { machine: MachineChoice::Machine(name@), ..s.filter },
            ..s
        },
    }
}

/// The ids of `routines`, in order.
fn routine_ids_of(routines: &[Routine]) -> (r: Vec<String>)
    ensures
        r.deep_view() == routine_ids(routines_view(routines@)),
{
    let mut out: Vec<String> = Vec::new();
    let mut i: usize = 0;
    while i < routines.len()
        invariant
            i <= routines@.len(),
            out@.len() == i,
            forall|k: int| 0 <= k < i ==> (#[trigger] out@[k])@ == routines@[k].id@,
        decreases routines@.len() - i,
    {
        out.push(routines[i].id.clone());
        i = i + 1;
    }
    proof {
        assert(out.deep_view() =~= routine_ids(routines_view(routines@)));
    }
    out
}

/// The position of the first routine of `routines` with id `id`.
pub fn routine_position(routines: &[Routine], id: &str) -> (r: Option<usize>)
    ensures
        match r {
            Some(i) => routine_ids(routines_view(routines@)).index_of_first(id@) == Some(i as int),
            None => routine_ids(routines_view(routines@)).index_of_first(id@) is None,
        },
{
    let ghost ids = routine_ids(routines_view(routines@));
    proof {
        ids.index_of_first_ensures(id@);
    }
    let mut i: usize = 0;
    while i < routines.len()
        invariant
            i <= routines@.len(),
            ids == routine_ids(routines_view(routines@)),
            forall|k: int| 0 <= k < i ==> ids[k] != id@,
        decreases routines@.len() - i,
    {
        if same_text(routines[i].id.as_str(), id) {
            proof {
                assert(ids[i as int] == id@);
                assert(ids.contains(id@));
                ids.index_of_first_ensures(id@);
            }
            return Some(i);
        }
        i = i + 1;
    }
    proof {
        ids.index_of_first_ensures(id@);
    }
    None
}

/// The routines of `routines` whose id `gone` does not list, in order.
fn routines_except(routines: &[Routine], gone: &Vec<String>) -> (r: Vec<Routine>)
    ensures
        routines_view(r@) == kept_routines(routines_view(routines@), gone.deep_view().to_set()),
{
    let ghost g = gone.deep_view().to_set();
    let mut out: Vec<Routine> = Vec::new();
    let mut i: usize = 0;
    while i < routines.len()
        invariant
            i <= routines@.len(),
            g == gone.deep_view().to_set(),
            routines_view(out@) == kept_routines(routines_view(routines@.take(i as int)), g),
        decreases routines@.len() - i,
    {
        let ghost before = out@;
        let keep = !list_has(gone, routines[i].id.as_str());
        if keep {
            out.push(routines[i].clone());
        }
        proof {
            let pre = routines_view(routines@.take(i as int));
            let post = routines_view(routines@.take(i + 1));
            assert(post =~= pre.push(routines@[i as int]@));
            assert(post.drop_last() =~= pre);
            reveal(Seq::filter);
            if keep {
                assert(routines_view(out@) =~= routines_view(before).push(routines@[i as int]@));
            } else {
                assert(routines_view(out@) =~= routines_view(before));
            }
        }
        i = i + 1;
    }
    proof {
        assert(routines@.take(routines@.len() as int) =~= routines@);
    }
    out
}

proof fn lemma_singleton_id_set(x: Seq<char>)
    ensures
        seq![x].to_set() == set![x],
{
    assert(seq![x][0] == x);
    assert(seq![x].to_set() =~= set![x]);
}

proof fn lemma_selection_len(v: Seq<Seq<char>>)
    requires
        strictly_sorted(v),
    ensures
        v.to_set().len() == v.len(),
{
    assert forall|i: int, j: int| 0 <= i < v.len() && 0 <= j < v.len() && i != j implies v[i] != v[j] by {
        if i < j {
            assert(text_le(v[i], v[j]) && v[i] != v[j]);
        } else {
            assert(text_le(v[j], v[i]) && v[j] != v[i]);
        }
    }
    v.unique_seq_to_set();
}

impl RState {
    /// The page state after `action`. A selection that was not kept sorted is sorted
    /// first; it selects the same ids.
    pub fn reduce(self, action: RAction) -> (r: RState)
        ensures
            r.wf(),
            r@ == r_step(self@, action),
    {
        let ghost before = self@;
        let mut state = self;
        let sorted = sorted_set_of(&state.selected);
        let ghost old_sel = state.selected.deep_view();
        state.selected = sorted;
        proof {
            assert(state.selected.deep_view().to_set() =~= old_sel.to_set());
            assert(state@ == before);
        }
        state.reduce_sorted(action)
    }

    /// The page state after `action`, from a state whose selection is kept sorted.
    fn reduce_sorted(self, action: RAction) -> (r: RState)
        requires
            self.wf(),
        ensures
            r.wf(),
            r@ == r_step(self@, action),
    {
        let ghost s0 = self@;
        let ghost sel0 = self.selected.deep_view();
        let mut s = self;
        match action {
            RAction::Loaded(rs) => {
                let ids = routine_ids_of(rs.as_slice());
                retain_members(&mut s.selected, &ids, true);
                s.routines = rs;
                s.loading = false;
                proof {
                    assert(s.selected.deep_view().to_set() =~= s0.selected.intersect(ids.deep_view().to_set()));
                }
            },
            RAction::GoToNew => s.page = RPage::New,
            RAction::GoToList => s.page = RPage::List,
            RAction::GoToLogs(id) => s.page = RPage::Logs(id),
            RAction::GoToFlags(id) => s.page = RPage::Flags(id),
            RAction::GoToClone(id) => {
                match routine_position(s.routines.as_slice(), id.as_str()) {
                    Some(i) => {
                        proof {
                            routine_ids(routines_view(s.routines@)).index_of_first_ensures(id@);
                        }
                        let copy = s.routines[i].clone();
                        s.page = RPage::Clone(Box::new(copy));
                    },
                    None => {},
                }
            },
            RAction::OpenEdit(id) => s.modal = RModal::Edit(id),
            RAction::OpenConfirmDelete { id, title } => s.modal = RModal::ConfirmDelete { id, title },
            RAction::OpenConfirmBulkDelete => {
                proof {
                    lemma_selection_len(sel0);
                }
                s.modal = RModal::ConfirmBulkDelete { count: s.selected.len() };
            },
            RAction::CloseModal => s.modal = RModal::Closed,
            RAction::SetView(view) => s.view = view,
            RAction::SetQuery(q) => s.filter.query = q,
            RAction::SetStatusFacet(st) => s.filter.status = st,
            RAction::SetAgentFacet(ag) => s.filter.agent = ag,
            RAction::SetMachineFacet(m) => s.filter.machine = m,
            RAction::SetRepositoryFacet(rp) => s.filter.repository = rp,
            RAction::ClearFilters => s.filter = RoutineFilter::default(),
            RAction::SetGroupBy(by) => s.group_by = by,
            RAction::SortByCol(col) => {
                if s.sort_col == Some(col) {
                    s.sort_dir = s.sort_dir.flip();
                } else {
                    s.sort_col = Some(col);
                    s.sort_dir = RDir::Asc;
                }
            },
            RAction::Upsert(boxed) => {
                let rt = *boxed;
                match routine_position(s.routines.as_slice(), rt.id.as_str()) {
                    Some(i) => {
                        proof {
                            routine_ids(routines_view(s.routines@)).index_of_first_ensures(rt.id@);
                        }
                        let ghost r0 = s.routines@;
                        let ghost rv = rt@;
                        s.routines[i] = rt;
                        proof {
                            assert(routines_view(s.routines@) =~= routines_view(r0).update(i as int, rv));
                        }
                    },
                    None => {
                        let ghost r0 = s.routines@;
                        let ghost rv = rt@;
                        s.routines.push(rt);
                        proof {
                            assert(routines_view(s.routines@) =~= routines_view(r0).push(rv));
                        }
                    },
                }
            },
            RAction::Remove(id) => {
                let gone = vec![id];
                s.routines = routines_except(s.routines.as_slice(), &gone);
                remove_sorted(&mut s.selected, &gone[0]);
                proof {
                    assert(gone.deep_view() =~= seq![gone@[0]@]);
                    lemma_singleton_id_set(gone@[0]@);
                    assert(s.selected.deep_view().to_set() =~= s0.selected.remove(gone@[0]@));
                }
            },
            RAction::RemoveMany(ids) => {
                s.routines = routines_except(s.routines.as_slice(), &ids);
                retain_members(&mut s.selected, &ids, false);
                proof {
                    assert(s.selected.deep_view().to_set() =~= s0.selected.difference(ids.deep_view().to_set()));
                }
            },
            RAction::SelectRoutine(id) => {
                if !remove_sorted(&mut s.selected, &id) {
                    insert_sorted(&mut s.selected, &id);
                }
                proof {
                    if s0.selected.contains(id@) {
                        assert(s.selected.deep_view().to_set() =~= s0.selected.remove(id@));
                    } else {
                        assert(s.selected.deep_view().to_set() =~= s0.selected.insert(id@));
                    }
                }
            },
            RAction::SelectAll(ids) => {
                s.selected = sorted_set_of(&ids);
                proof {
                    assert(s.selected.deep_view().to_set() =~= ids.deep_view().to_set());
                }
            },
            RAction::ClearSelection => {
                s.selected = Vec::new();
                proof {
                    assert(s.selected.deep_view().to_set() =~= Set::<Seq<char>>::empty());
                }
            },
            RAction::LockStatusLoaded(status) => s.lock_status = Some(status),
            RAction::CurrentMachineLoaded(name) => {
                s.current_machine = Some(name.clone());
                s.filter.machine = RoutineMachineFacet::Machine(name);
            },
        }
        s
    }
}

// ─── Form codecs ────────────────────────────────────────────────────────────

/// The prefix that marks a copied routine's title.
pub open spec fn copy_prefix() -> Seq<char> {
    "Copy of "@
}

/// The title of a copy: the prefix in front, unless the title already starts with it
/// (so copies of copies do not pile prefixes up).
pub open spec fn cloned_title(t: Seq<char>) -> Seq<char> {
    if occurs_at(t, copy_prefix(), 0) {
        t
    } else {
        copy_prefix() + t
    }
}

/// Title for a cloned routine.
pub fn clone_title(title: &str) -> (r: String)
    ensures
        r@ == cloned_title(title@),
{
    let t = chars_of(title);
    let p = chars_of("Copy of ");
    if p.len() <= t.len() && matches_at(t.as_slice(), p.as_slice(), 0) {
        owned(title)
    } else {
        let joined = concat(p.as_slice(), t.as_slice());
        string_of(joined.as_slice())
    }
}

/// One repository as a form line: the URL, then a space and the branch when there is a
/// non-empty one.
pub open spec fn repo_line(p: (Seq<char>, Option<Seq<char>>)) -> Seq<char> {
    match p.1 {
        Some(b) => if b.len() > 0 {
            p.0 + " "@ + b
        } else {
            p.0
        },
        None => p.0,
    }
}

/// Repositories as the form's textarea shows them: one line each.
pub fn repos_to_text(repos: &Vec<Repository>) -> (r: String)
    ensures
        r@ == join_with(repos_view(repos@).map_values(|p: (Seq<char>, Option<Seq<char>>)| repo_line(p)), "\n"@),
{
    let sp = chars_of(" ");
    let mut lines: Vec<Vec<char>> = Vec::new();
    let mut i: usize = 0;
    while i < repos.len()
        invariant
            i <= repos@.len(),
            sp@ == " "@,
            lines@.len() == i,
            forall|k: int| 0 <= k < i ==> (#[trigger] lines@[k])@ == repo_line(repos@[k]@),
        decreases repos@.len() - i,
    {
        let url = chars_of(repos[i].repository.as_str());
        let line = match &repos[i].branch {
            Some(b) => {
                let bc = chars_of(b.as_str());
                if bc.len() > 0 {
                    let head = concat(url.as_slice(), sp.as_slice());
                    concat(head.as_slice(), bc.as_slice())
                } else {
                    url
                }
            },
            None => url,
        };
        lines.push(line);
        i = i + 1;
    }
    let nl = chars_of("\n");
    let joined = join_chars(&lines, nl.as_slice());
    proof {
        assert(lines@.map_values(|w: Vec<char>| w@) =~= repos_view(repos@).map_values(
            |p: (Seq<char>, Option<Seq<char>>)| repo_line(p),
        ));
    }
    string_of(joined.as_slice())
}

/// The repository a form line's words describe: the first word is the URL, the second
/// (if any) the branch.
pub open spec fn repo_of_words(ws: Seq<Seq<char>>) -> (Seq<char>, Option<Seq<char>>) {
    (ws[0], if ws.len() > 1 { Some(ws[1]) } else { None })
}

/// The repositories form lines describe; lines without words are skipped.
pub open spec fn repos_of_lines(lines: Seq<Seq<char>>) -> Seq<(Seq<char>, Option<Seq<char>>)>
    decreases lines.len(),
{
    if lines.len() == 0 {
        seq![]
    } else {
        let rest = repos_of_lines(lines.drop_last());
        let ws = words_of(lines.last());
        if ws.len() == 0 {
            rest
        } else {
            rest.push(repo_of_words(ws))
        }
    }
}

/// Parses the textarea's `url [branch]` lines back into repositories.
pub fn text_to_repos(text: &str) -> (r: Vec<Repository>)
    ensures
        repos_view(r@) == repos_of_lines(lines_of(text@)),
{
    let cs = chars_of(text);
    let lines = split_lines(cs.as_slice());
    let ghost ls = lines_of(text@);
    let mut out: Vec<Repository> = Vec::new();
    let mut i: usize = 0;
    while i < lines.len()
        invariant
            i <= lines@.len(),
            lines@.len() == ls.len(),
            forall|k: int| 0 <= k < lines@.len() ==> #[trigger] lines@[k]@ == ls[k],
            repos_view(out@) == repos_of_lines(ls.take(i as int)),
        decreases lines@.len() - i,
    {
        let words = split_words(lines[i].as_slice());
        let ghost before = out@;
        proof {
            assert(ls.take(i + 1).drop_last() =~= ls.take(i as int));
            assert(ls.take(i + 1).last() == lines@[i as int]@);
            assert(words@.len() == words_of(lines@[i as int]@).len());
        }
        if words.len() > 0 {
            let branch = if words.len() > 1 {
                Some(string_of(words[1].as_slice()))
            } else {
                None
            };
            let repo = Repository { repository: string_of(words[0].as_slice()), branch };
            out.push(repo);
            proof {
                let ws = words@.map_values(|w: Vec<char>| w@);
                assert(ws[0] == words@[0]@);
                if words@.len() > 1 {
                    assert(ws[1] == words@[1]@);
                }
                assert(repos_view(out@) =~= repos_view(before).push(repo_of_words(words_of(lines@[i as int]@))));
            }
        }
        i = i + 1;
    }
    proof {
        assert(ls.take(ls.len() as int) =~= ls);
    }
    out
}

/// Tags as the form's input shows them: joined by `", "`.
pub fn tags_to_text(tags: &Vec<String>) -> (r: String)
    ensures
        r@ == join_with(tags.deep_view(), ", "@),
{
    let joined = join_strings(tags, ", ");
    string_of(joined.as_slice())
}

/// The tags a comma-separated input names: each piece trimmed, empty ones dropped.
pub open spec fn tags_of(text: Seq<char>) -> Seq<Seq<char>> {
    split_on(text, ',').map_values(|p: Seq<char>| trim(p)).filter(|t: Seq<char>| t.len() > 0)
}

/// Splits a comma-separated input into trimmed, non-empty tags.
pub fn text_to_tags(text: &str) -> (r: Vec<String>)
    ensures
        r.deep_view() == tags_of(text@),
{
    let cs = chars_of(text);
    let pieces = split_at_char(cs.as_slice(), ',');
    let ghost ps = pieces@.map_values(|p: Vec<char>| p@);
    let ghost trimmed_all = ps.map_values(|p: Seq<char>| trim(p));
    let mut out: Vec<String> = Vec::new();
    let mut i: usize = 0;
    while i < pieces.len()
        invariant
            i <= pieces@.len(),
            ps == pieces@.map_values(|p: Vec<char>| p@),
            trimmed_all == ps.map_values(|p: Seq<char>| trim(p)),
            out.deep_view() == trimmed_all.take(i as int).filter(|t: Seq<char>| t.len() > 0),
        decreases pieces@.len() - i,
    {
        let t = crate::text::trimmed(pieces[i].as_slice());
        let ghost before = out.deep_view();
        if t.len() > 0 {
            out.push(string_of(t.as_slice()));
        }
        proof {
            let pre = trimmed_all.take(i as int);
            let post = trimmed_all.take(i + 1);
            assert(ps[i as int] == pieces@[i as int]@);
            assert(post =~= pre.push(t@));
            assert(post.drop_last() =~= pre);
            reveal(Seq::filter);
            if t@.len() > 0 {
                assert(out.deep_view() =~= before.push(t@));
            } else {
                assert(out.deep_view() =~= before);
            }
        }
        i = i + 1;
    }
    proof {
        assert(trimmed_all.take(trimmed_all.len() as int) =~= trimmed_all);
    }
    out
}

/// Whether `c` is an ASCII decimal digit.
pub open spec fn is_digit(c: char) -> bool {
    '0' <= c <= '9'
}

/// The value of the digits `d` read as a decimal number.
pub open spec fn digits_value(d: Seq<char>) -> int
    decreases d.len(),
{
    if d.len() == 0 {
        0
    } else {
        digits_value(d.drop_last()) * 10 + ((d.last() as int) - ('0' as int))
    }
}

/// The number `s` spells as `u64::from_str` reads it: an optional `+`, then one or more
/// digits whose value fits in a `u64`.
pub open spec fn parsed_u64(s: Seq<char>) -> Option<u64> {
    let d = unsigned_part(s);
    if d.len() > 0 && all_digits(d) && digits_value(d) <= u64::MAX {
        Some(digits_value(d) as u64)
    } else {
        None
    }
}

/// `s` without a leading `+`.
pub open spec fn unsigned_part(s: Seq<char>) -> Seq<char> {
    if s.len() > 0 && s[0] == '+' {
        s.drop_first()
    } else {
        s
    }
}

/// Every character of `d` is a decimal digit.
pub open spec fn all_digits(d: Seq<char>) -> bool {
    forall|i: int| 0 <= i < d.len() ==> is_digit(#[trigger] d[i])
}

proof fn lemma_digits_prefix(d: Seq<char>, j: int)
    requires
        0 <= j <= d.len(),
        forall|i: int| 0 <= i < d.len() ==> is_digit(#[trigger] d[i]),
    ensures
        0 <= digits_value(d.take(j)) <= digits_value(d),
    decreases d.len(),
{
    if d.len() > 0 {
        let p = d.drop_last();
        assert forall|i: int| 0 <= i < p.len() implies is_digit(#[trigger] p[i]) by {
            assert(p[i] == d[i]);
        }
        if j == d.len() {
            assert(d.take(j) =~= d);
            lemma_digits_prefix(p, p.len() as int);
            assert(p.take(p.len() as int) =~= p);
            assert(is_digit(d[d.len() - 1]));
        } else {
            lemma_digits_prefix(p, j);
            assert(p.take(j) =~= d.take(j));
            lemma_digits_prefix(p, p.len() as int);
            assert(p.take(p.len() as int) =~= p);
            assert(is_digit(d[d.len() - 1]));
        }
    }
}

/// Reads `s` as `u64::from_str` does.
pub fn parse_u64(s: &[char]) -> (r: Option<u64>)
    ensures
        r == parsed_u64(s@),
{
    let start: usize = if s.len() > 0 && s[0] == '+' { 1 } else { 0 };
    let ghost d = unsigned_part(s@);
    proof {
        assert(d =~= s@.skip(start as int));
    }
    if start == s.len() {
        return None;
    }
    let mut acc: u64 = 0;
    let mut i: usize = start;
    proof {
        assert(d.take(0) =~= Seq::<char>::empty());
    }
    while i < s.len()
        invariant
            start <= i <= s@.len(),
            d == s@.skip(start as int),
            d == unsigned_part(s@),
            forall|k: int| 0 <= k < i - start ==> is_digit(#[trigger] d[k]),
            acc == digits_value(d.take(i - start)),
        decreases s@.len() - i,
    {
        let c = s[i];
        proof {
            assert(d[i - start] == c);
        }
        if c < '0' || c > '9' {
            proof {
                assert(!is_digit(d[i - start]));
                assert(!all_digits(d));
            }
            return None;
        }
        let digit: u64 = (c as u32 - 48) as u64;
        proof {
            let k = i - start;
            assert(d.take(k + 1).drop_last() =~= d.take(k));
            assert(d.take(k + 1).last() == c);
            assert(is_digit(d[k]));
            assert(digits_value(d.take(k + 1)) == acc * 10 + digit);
        }
        match acc.checked_mul(10) {
            Some(m) => match m.checked_add(digit) {
                Some(v) => {
                    acc = v;
                },
                None => {
                    proof {
                        lemma_no_parse_beyond(d, i + 1 - start);
                    }
                    return None;
                },
            },
            None => {
                proof {
                    lemma_no_parse_beyond(d, i + 1 - start);
                }
                return None;
            },
        }
        i = i + 1;
    }
    proof {
        assert(d.take(d.len() as int) =~= d);
    }
    Some(acc)
}

proof fn lemma_no_parse_beyond(d: Seq<char>, j: int)
    requires
        0 < j <= d.len(),
        forall|k: int| 0 <= k < j ==> is_digit(#[trigger] d[k]),
        digits_value(d.take(j)) > u64::MAX,
    ensures
        !(d.len() > 0 && all_digits(d) && digits_value(d) <= u64::MAX),
{
    if all_digits(d) {
        lemma_digits_prefix(d, j);
    }
}

/// A TTL field's value: blank means the server default (`None`), otherwise the number it
/// spells, `None` when it spells none.
pub open spec fn ttl_of(raw: Seq<char>) -> Option<u64> {
    if trim(raw).len() == 0 {
        None
    } else {
        parsed_u64(trim(raw))
    }
}

/// Parses a TTL field into seconds.
pub fn parse_ttl(raw: &str) -> (r: Option<u64>)
    ensures
        r == ttl_of(raw@),
{
    let cs = chars_of(raw);
    let t = crate::text::trimmed(cs.as_slice());
    if t.len() == 0 {
        None
    } else {
        parse_u64(t.as_slice())
    }
}

/// A TTL for display: `default` when unset, else the largest whole unit among days,
/// hours, minutes and seconds (`7d`, `12h`, `30m`, `45s`).
pub open spec fn ttl_text(ttl: Option<u64>) -> Seq<char> {
    match ttl {
        None => "default"@,
        Some(s) => if s == 0 {
            "0s"@
        } else if s % 86_400 == 0 {
            decimal((s / 86_400) as nat) + "d"@
        } else if s % 3_600 == 0 {
            decimal((s / 3_600) as nat) + "h"@
        } else if s % 60 == 0 {
            decimal((s / 60) as nat) + "m"@
        } else {
            decimal(s as nat) + "s"@
        },
    }
}

/// Renders a routine's TTL for display.
pub fn format_ttl(ttl_secs: Option<u64>) -> (r: String)
    ensures
        r@ == ttl_text(ttl_secs),
{
    match ttl_secs {
        None => owned("default"),
        Some(s) => {
            if s == 0 {
                return owned("0s");
            }
            let (n, unit) = if s % 86_400 == 0 {
                (s / 86_400, "d")
            } else if s % 3_600 == 0 {
                (s / 3_600, "h")
            } else if s % 60 == 0 {
                (s / 60, "m")
            } else {
                (s, "s")
            };
            let digits = decimal_chars(n);
            let u = chars_of(unit);
            let joined = concat(digits.as_slice(), u.as_slice());
            string_of(joined.as_slice())
        },
    }
}

/// The routines calendar feed URL on a page origin.
pub fn ics_feed_url(origin: &str) -> (r: String)
    ensures
        r@ == origin@ + "/api/v1/routines.ics"@,
{
    let o = chars_of(origin);
    let tail = chars_of("/api/v1/routines.ics");
    let joined = concat(o.as_slice(), tail.as_slice());
    string_of(joined.as_slice())
}

// ─── Routine form ───────────────────────────────────────────────────────────

/// Whether the routine form may be saved: title, schedule, agent and prompt each hold
/// something besides whitespace.
pub open spec fn form_complete(title: Seq<char>, schedule: Seq<char>, agent: Seq<char>, prompt: Seq<char>) -> bool {
    !is_blank(title) && !is_blank(schedule) && !is_blank(agent) && !is_blank(prompt)
}

/// Whether the routine form may be saved (see [`form_complete`]).
pub fn form_ready(title: &str, schedule: &str, agent: &str, prompt: &str) -> (r: bool)
    ensures
        r == form_complete(title@, schedule@, agent@, prompt@),
{
    let t = chars_of(title);
    let s = chars_of(schedule);
    let a = chars_of(agent);
    let p = chars_of(prompt);
    !blank(t.as_slice()) && !blank(s.as_slice()) && !blank(a.as_slice()) && !blank(p.as_slice())
}

/// The request the routine form sends on save: none while a required field is blank;
/// otherwise the fields as entered, the repositories one per line, the tags comma
/// separated and the retention as [`ttl_of`] reads it.
pub fn routine_request(
    title: &str,
    schedule: &str,
    agent: &str,
    prompt: &str,
    repos_raw: &str,
    machines: &Vec<String>,
    enabled: bool,
    ttl_raw: &str,
    tags_raw: &str,
) -> (r: Option<CreateRoutineRequest>)
    ensures
        r is None <==> !form_complete(title@, schedule@, agent@, prompt@),
        r matches Some(q) ==> {
            &&& q.title@ == title@
            &&& q.schedule@ == schedule@
            &&& q.agent@ == agent@
            &&& q.prompt@ == prompt@
            &&& repos_view(q.repositories@) == repos_of_lines(lines_of(repos_raw@))
            &&& q.machines.deep_view() == machines.deep_view()
            &&& q.enabled == enabled
            &&& q.ttl_secs == ttl_of(ttl_raw@)
            &&& q.tags.deep_view() == tags_of(tags_raw@)
        },
{
    if !form_ready(title, schedule, agent, prompt) {
        return None;
    }
    Some(
        CreateRoutineRequest {
            schedule: owned(schedule),
            title: owned(title),
            agent: owned(agent),
            prompt: owned(prompt),
            repositories: text_to_repos(repos_raw),
            machines: clone_strings(machines),
            enabled,
            ttl_secs: parse_ttl(ttl_raw),
            tags: text_to_tags(tags_raw),
        },
    )
}

impl CreateRoutineRequest {
    /// The update that sets every field of an edited routine to this request's value;
    /// the retention only where the form gave one.
    pub fn into_update(self) -> (r: UpdateRoutineRequest)
        ensures
            r.schedule == Some(self.schedule),
            r.title == Some(self.title),
            r.agent == Some(self.agent),
            r.prompt == Some(self.prompt),
            r.repositories == Some(self.repositories),
            r.machines == Some(self.machines),
            r.enabled == Some(self.enabled),
            r.ttl_secs == self.ttl_secs,
            r.tags == Some(self.tags),
    {
        UpdateRoutineRequest {
            schedule: Some(self.schedule),
            title: Some(self.title),
            agent: Some(self.agent),
            prompt: Some(self.prompt),
            repositories: Some(self.repositories),
            machines: Some(self.machines),
            enabled: Some(self.enabled),
            ttl_secs: self.ttl_secs,
            tags: Some(self.tags),
        }
    }
}

// ─── Laws ───────────────────────────────────────────────────────────────────

/// Every routine status facet decodes back from its own token.
pub proof fn lemma_routine_status_roundtrip(f: RoutineStatusFacet)
    ensures
        routine_status_from_token(routine_status_token(f)) == f,
{
    reveal_strlit("all");
    reveal_strlit("enabled");
    reveal_strlit("disabled");
    reveal_strlit("dormant");
    reveal_strlit("due");
    assert("all"@.len() != "enabled"@.len() && "all"@.len() != "disabled"@.len() && "all"@.len() != "dormant"@.len());
    assert("all"@[0] != "due"@[0]);
    assert("enabled"@.len() != "disabled"@.len() && "enabled"@[0] != "dormant"@[0] && "enabled"@.len() != "due"@.len());
    assert("disabled"@.len() != "dormant"@.len() && "disabled"@.len() != "due"@.len());
    assert("dormant"@.len() != "due"@.len());
}

/// Every agent or repository facet decodes back from its own select value, unless it
/// names one whose name is the reserved "all" value.
pub proof fn lemma_named_value_roundtrip(f: Option<Seq<char>>)
    requires
        f matches Some(name) ==> name != all_token(),
    ensures
        named_from_value(named_value(f)) == f,
{
}

/// Every routine group-by dimension decodes back from its own token.
pub proof fn lemma_rgroup_token_roundtrip(g: RGroupBy)
    ensures
        rgroup_from_token(rgroup_token(g)) == g,
{
    reveal_strlit("none");
    reveal_strlit("agent");
    reveal_strlit("machine");
    reveal_strlit("status");
    assert("none"@.len() != "agent"@.len() && "none"@.len() != "machine"@.len() && "none"@.len() != "status"@.len());
    assert("agent"@.len() != "machine"@.len() && "agent"@.len() != "status"@.len());
    assert("machine"@.len() != "status"@.len());
}

/// Reversing a routine sort direction changes it, and reversing it twice restores it.
pub proof fn lemma_rdir_flip_involution(d: RDir)
    ensures
        rdir_flipped(d) != d,
        rdir_flipped(rdir_flipped(d)) == d,
{
}

/// The free-text query searches a routine's title, agent, prompt, schedule, repository
/// URLs and description: under a filter that narrows by nothing else, a blank query keeps
/// the routine, and so does a query whose lowercase form occurs in the lowercase form of
/// any of those.
pub proof fn lemma_query_searches_routine_fields(f: RoutineFilterView, r: RoutineView, due: bool)
    requires
        f.status == RoutineStatusFacet::All,
        f.agent is None,
        f.machine == MachineChoice::Any,
        f.repository is None,
    ensures
        ({
            let n = unicode_lowercase(trim(f.query));
            ||| trim(f.query).len() == 0
            ||| contains_seq(unicode_lowercase(r.title), n)
            ||| contains_seq(unicode_lowercase(r.agent), n)
            ||| contains_seq(unicode_lowercase(r.prompt), n)
            ||| contains_seq(unicode_lowercase(r.schedule), n)
            ||| (exists|i: int|
                0 <= i < r.repositories.len() && contains_seq(unicode_lowercase(#[trigger] r.repositories[i].0), n))
            ||| (r.schedule_description matches Some(d) && contains_seq(unicode_lowercase(d), n))
        }) ==> routine_filter_admits(f, r, due),
{
    let n = unicode_lowercase(trim(f.query));
    let desc = match r.schedule_description {
        Some(d) => d,
        None => Seq::<char>::empty(),
    };
    let urls = repo_urls(r).map_values(|u: Seq<char>| unicode_lowercase(u));
    let (ti, ag, pr, sc, re, de) = (
        unicode_lowercase(r.title),
        unicode_lowercase(r.agent),
        unicode_lowercase(r.prompt),
        unicode_lowercase(r.schedule),
        join_with(urls, " "@),
        unicode_lowercase(desc),
    );
    let sp = " "@;
    let hay = routine_haystack(r);
    assert(hay == ti + sp + ag + sp + pr + sp + sc + sp + re + sp + de);
    if trim(f.query).len() > 0 {
        if contains_seq(ti, n) {
            lemma_contains_within(Seq::<char>::empty(), ti, sp + ag + sp + pr + sp + sc + sp + re + sp + de, n);
            assert(Seq::<char>::empty() + ti + (sp + ag + sp + pr + sp + sc + sp + re + sp + de) =~= hay);
        } else if contains_seq(ag, n) {
            lemma_contains_within(ti + sp, ag, sp + pr + sp + sc + sp + re + sp + de, n);
            assert(ti + sp + ag + (sp + pr + sp + sc + sp + re + sp + de) =~= hay);
        } else if contains_seq(pr, n) {
            lemma_contains_within(ti + sp + ag + sp, pr, sp + sc + sp + re + sp + de, n);
            assert(ti + sp + ag + sp + pr + (sp + sc + sp + re + sp + de) =~= hay);
        } else if contains_seq(sc, n) {
            lemma_contains_within(ti + sp + ag + sp + pr + sp, sc, sp + re + sp + de, n);
            assert(ti + sp + ag + sp + pr + sp + sc + (sp + re + sp + de) =~= hay);
        } else if r.schedule_description is Some && contains_seq(de, n) {
            lemma_contains_within(ti + sp + ag + sp + pr + sp + sc + sp + re + sp, de, Seq::<char>::empty(), n);
            assert(ti + sp + ag + sp + pr + sp + sc + sp + re + sp + de + Seq::<char>::empty() =~= hay);
        } else if exists|i: int|
            0 <= i < r.repositories.len() && contains_seq(unicode_lowercase(#[trigger] r.repositories[i].0), n) {
            let i = choose|i: int|
                0 <= i < r.repositories.len() && contains_seq(unicode_lowercase(#[trigger] r.repositories[i].0), n);
            assert(urls[i] == unicode_lowercase(r.repositories[i].0));
            lemma_join_with_piece(urls, sp, i);
            let (x, y) = choose|x: Seq<char>, y: Seq<char>| re == x + urls[i] + y;
            lemma_contains_within(x, urls[i], y, n);
            lemma_contains_within(ti + sp + ag + sp + pr + sp + sc + sp, re, sp + de, n);
            assert(ti + sp + ag + sp + pr + sp + sc + sp + re + (sp + de) =~= hay);
        }
    }
}

/// The routine filter that narrows nothing keeps every routine.
pub proof fn lemma_open_routine_filter_keeps_all(
    rs: Seq<RoutineView>,
    nexts: Seq<Option<i64>>,
    now: i64,
    window: i64,
)
    requires
        nexts.len() == rs.len(),
    ensures
        routines_filtered(rs, open_routine_filter(), nexts, now, window) == rs,
    decreases rs.len(),
{
    if rs.len() > 0 {
        lemma_open_routine_filter_keeps_all(rs.drop_last(), nexts.drop_last(), now, window);
        assert(trim(open_routine_filter().query).len() == 0);
        assert(rs.drop_last().push(rs.last()) =~= rs);
    }
}

/// Clicking the active sort column twice restores the routines page state.
pub proof fn lemma_rsort_same_column_twice(s: RStateView, c: RCol)
    requires
        s.sort_col == Some(c),
    ensures
        r_step(r_step(s, RAction::SortByCol(c)), RAction::SortByCol(c)) == s,
{
}

/// Toggling the same routine twice restores the selection.
pub proof fn lemma_select_routine_twice(s: RStateView, id: String)
    ensures
        r_step(r_step(s, RAction::SelectRoutine(id)), RAction::SelectRoutine(id)).selected == s.selected,
{
    let twice = r_step(r_step(s, RAction::SelectRoutine(id)), RAction::SelectRoutine(id));
    assert(twice.selected =~= s.selected);
}

/// After a reload the selection only names routines that were loaded.
pub proof fn lemma_rloaded_selection_within(s: RStateView, rs: Vec<Routine>)
    ensures
        forall|x: Seq<char>|
            #[trigger] r_step(s, RAction::Loaded(rs)).selected.contains(x) ==> routine_ids(routines_view(rs@)).contains(x),
{
}

/// After removing a routine, neither the list nor the selection holds its id.
pub proof fn lemma_rremove_forgets(s: RStateView, id: String)
    ensures
        !routine_ids(r_step(s, RAction::Remove(id)).routines).contains(id@),
        !r_step(s, RAction::Remove(id)).selected.contains(id@),
{
    let gone = set![id@];
    let kept = kept_routines(s.routines, gone);
    let pred = |r: RoutineView| !gone.contains(r.id);
    if routine_ids(kept).contains(id@) {
        let i = choose|i: int| 0 <= i < routine_ids(kept).len() && routine_ids(kept)[i] == id@;
        s.routines.lemma_filter_pred(pred, i);
        assert(false);
    }
}

/// Upserting into a list whose ids are distinct replaces the routine with the same id in
/// place, or appends the routine when no listed routine has its id; the ids stay distinct,
/// and the selection stays as it was.
pub proof fn lemma_rupsert_in_place(s: RStateView, r: Routine)
    requires
        routine_ids(s.routines).no_duplicates(),
    ensures
        routine_ids(r_step(s, RAction::Upsert(Box::new(r))).routines).no_duplicates(),
        forall|i: int|
            0 <= i < s.routines.len() && (#[trigger] s.routines[i]).id == r@.id ==> r_step(
                s,
                RAction::Upsert(Box::new(r)),
            ).routines == s.routines.update(i, r@),
        !routine_ids(s.routines).contains(r@.id) ==> r_step(s, RAction::Upsert(Box::new(r))).routines
            == s.routines.push(r@),
        r_step(s, RAction::Upsert(Box::new(r))).selected == s.selected,
{
    let ids = routine_ids(s.routines);
    let out = r_step(s, RAction::Upsert(Box::new(r))).routines;
    ids.index_of_first_ensures(r@.id);
    match ids.index_of_first(r@.id) {
        Some(k) => {
            assert forall|i: int| 0 <= i < s.routines.len() && (#[trigger] s.routines[i]).id == r@.id implies out
                == s.routines.update(i, r@) by {
                assert(ids[i] == r@.id);
                if i != k {
                    assert(ids[i] == ids[k]);
                }
            }
            assert(routine_ids(out) =~= ids);
        },
        None => {
            assert(routine_ids(out) =~= ids.push(r@.id));
            assert forall|a: int, b: int|
                0 <= a < routine_ids(out).len() && 0 <= b < routine_ids(out).len() && a != b implies routine_ids(
                out,
            )[a] != routine_ids(out)[b] by {
                if a < ids.len() && b < ids.len() {
                } else if a < ids.len() {
                    assert(ids[a] == routine_ids(out)[a]);
                    assert(ids.contains(ids[a]));
                } else if b < ids.len() {
                    assert(ids[b] == routine_ids(out)[b]);
                    assert(ids.contains(ids[b]));
                }
            }
            assert forall|i: int| 0 <= i < s.routines.len() && (#[trigger] s.routines[i]).id == r@.id implies false by {
                assert(ids[i] == r@.id);
                assert(ids.contains(r@.id));
            }
        },
    }
}

/// Copying a copy's title adds no second prefix: [`cloned_title`] is idempotent, and
/// every cloned title starts with the prefix.
pub proof fn lemma_cloned_title_idempotent(t: Seq<char>)
    ensures
        occurs_at(cloned_title(t), copy_prefix(), 0),
        cloned_title(cloned_title(t)) == cloned_title(t),
{
    if !occurs_at(t, copy_prefix(), 0) {
        let c = copy_prefix() + t;
        assert(c.subrange(0, copy_prefix().len() as int) =~= copy_prefix());
    }
}

/// A disabled routine is `Disabled` whatever else holds of it; an enabled one never is.
pub proof fn lemma_disabled_health(r: RoutineView, fires: bool, now: i64)
    ensures
        (health_of(r, fires, now) == RoutineHealth::Disabled) == !r.enabled,
{
}


/// How many routines of `routines` the sections `labels` under `by` hold together.
pub open spec fn routine_section_total(routines: Seq<RoutineView>, by: RGroupBy, labels: Seq<Seq<char>>) -> nat
    decreases labels.len(),
{
    if labels.len() == 0 {
        0
    } else {
        routine_section_total(routines, by, labels.drop_last()) + routine_group_members(routines, by, labels.last()).len()
    }
}

/// How often `v` occurs in `labels`.
pub open spec fn label_occurrences(labels: Seq<Seq<char>>, v: Seq<char>) -> nat
    decreases labels.len(),
{
    if labels.len() == 0 {
        0
    } else {
        label_occurrences(labels.drop_last(), v) + if labels.last() == v {
            1nat
        } else {
            0nat
        }
    }
}

proof fn lemma_routine_section_total_empty(by: RGroupBy, labels: Seq<Seq<char>>)
    ensures
        routine_section_total(Seq::<RoutineView>::empty(), by, labels) == 0,
    decreases labels.len(),
{
    if labels.len() > 0 {
        lemma_routine_section_total_empty(by, labels.drop_last());
        reveal(Seq::filter);
    }
}

proof fn lemma_routine_section_total_push(pre: Seq<RoutineView>, x: RoutineView, by: RGroupBy, labels: Seq<Seq<char>>)
    ensures
        routine_section_total(pre.push(x), by, labels) == routine_section_total(pre, by, labels) + label_occurrences(labels, routine_group_key_of(x, by)),
    decreases labels.len(),
{
    if labels.len() > 0 {
        lemma_routine_section_total_push(pre, x, by, labels.drop_last());
        lemma_routine_members_push(pre, x, by, labels.last());
    }
}

proof fn lemma_label_occurrences_once(labels: Seq<Seq<char>>, v: Seq<char>)
    requires
        labels.no_duplicates(),
    ensures
        label_occurrences(labels, v) == if labels.contains(v) { 1nat } else { 0nat },
    decreases labels.len(),
{
    if labels.len() > 0 {
        let init = labels.drop_last();
        assert(init.no_duplicates()) by {
            assert forall|i: int, j: int| 0 <= i < init.len() && 0 <= j < init.len() && i != j implies init[i] != init[j] by {
                assert(init[i] == labels[i] && init[j] == labels[j]);
            }
        }
        lemma_label_occurrences_once(init, v);
        if labels.last() == v {
            if init.contains(v) {
                let k = choose|k: int| 0 <= k < init.len() && init[k] == v;
                assert(labels[k] == labels[labels.len() - 1]);
            }
            assert(labels.contains(v)) by {
                assert(labels[labels.len() - 1] == v);
            }
        } else {
            if labels.contains(v) {
                let k = choose|k: int| 0 <= k < labels.len() && labels[k] == v;
                assert(init[k] == v);
            }
            if init.contains(v) {
                let k = choose|k: int| 0 <= k < init.len() && init[k] == v;
                assert(labels[k] == v);
            }
        }
    }
}

/// Every routine lies in exactly one section: when `labels` lists each section label once
/// and covers every routine's label, the sections hold as many routines as `routines` has.
pub proof fn lemma_routine_sections_partition(routines: Seq<RoutineView>, by: RGroupBy, labels: Seq<Seq<char>>)
    requires
        labels.no_duplicates(),
        forall|k: int| 0 <= k < routines.len() ==> labels.contains(routine_group_key_of(#[trigger] routines[k], by)),
    ensures
        routine_section_total(routines, by, labels) == routines.len(),
    decreases routines.len(),
{
    if routines.len() == 0 {
        lemma_routine_section_total_empty(by, labels);
        assert(routines =~= Seq::<RoutineView>::empty());
    } else {
        let pre = routines.drop_last();
        assert forall|k: int| 0 <= k < pre.len() implies labels.contains(routine_group_key_of(#[trigger] pre[k], by)) by {
            assert(pre[k] == routines[k]);
        }
        lemma_routine_sections_partition(pre, by, labels);
        assert(pre.push(routines.last()) =~= routines);
        lemma_routine_section_total_push(pre, routines.last(), by, labels);
        assert(labels.contains(routine_group_key_of(routines[routines.len() - 1], by)));
        lemma_label_occurrences_once(labels, routine_group_key_of(routines.last(), by));
    }
}

/// A routine belongs to the section labelled with its own key.
pub proof fn lemma_routine_in_own_section(routines: Seq<RoutineView>, by: RGroupBy, k: int)
    requires
        0 <= k < routines.len(),
    ensures
        routine_group_members(routines, by, routine_group_key_of(routines[k], by)).contains(routines[k]),
{
    let l = routine_group_key_of(routines[k], by);
    routines.lemma_filter_contains(|j: RoutineView| routine_group_key_of(j, by) == l, k);
}

/// The pieces of `p` followed by `tags` joined by `", "`, split at commas: `p` and the
/// first tag together, then each further tag behind a space.
proof fn lemma_split_joined_tags(p: Seq<char>, tags: Seq<Seq<char>>)
    requires
        tags.len() >= 1,
        !p.contains(','),
        forall|i: int| 0 <= i < tags.len() ==> !(#[trigger] tags[i]).contains(','),
    ensures
        split_on(p + join_with(tags, ", "@), ',') == seq![p + tags[0]] + tags.drop_first().map_values(
            |w: Seq<char>| seq![' '] + w,
        ),
    decreases tags.len(),
{
    reveal_strlit(", ");
    lemma_concat_lacks(p, tags[0], ',');
    if tags.len() == 1 {
        lemma_split_on_whole(p + tags[0], ',');
        assert(tags.drop_first().map_values(|w: Seq<char>| seq![' '] + w) =~= Seq::<Seq<char>>::empty());
        assert(split_on(p + join_with(tags, ", "@), ',') =~= seq![p + tags[0]]);
    } else {
        let rest = tags.drop_first();
        lemma_join_with_front(tags, ", "@);
        let tail = seq![' '] + join_with(rest, ", "@);
        assert(p + join_with(tags, ", "@) =~= (p + tags[0]) + seq![','] + tail);
        lemma_split_on_front(p + tags[0], ',', tail);
        assert(!seq![' '].contains(',')) by {
            if seq![' '].contains(',') {
                let i = choose|i: int| 0 <= i < 1 && seq![' '][i] == ',';
            }
        }
        assert forall|i: int| 0 <= i < rest.len() implies !(#[trigger] rest[i]).contains(',') by {
            assert(rest[i] == tags[i + 1]);
        }
        lemma_split_joined_tags(seq![' '], rest);
        assert(tags.drop_first().map_values(|w: Seq<char>| seq![' '] + w) =~= seq![seq![' '] + rest[0]]
            + rest.drop_first().map_values(|w: Seq<char>| seq![' '] + w));
    }
}

/// Tags shown in the edit form and saved unchanged come back as the same tags, as long as
/// each is non-empty, has no whitespace at either end and holds no comma.
pub proof fn lemma_tags_text_roundtrip(tags: Seq<Seq<char>>)
    requires
        forall|i: int|
            0 <= i < tags.len() ==> (#[trigger] tags[i]).len() > 0 && trim(tags[i]) == tags[i] && !tags[i].contains(
                ',',
            ),
    ensures
        tags_of(join_with(tags, ", "@)) == tags,
{
    let text = join_with(tags, ", "@);
    let trimmed_pieces = split_on(text, ',').map_values(|p: Seq<char>| trim(p));
    if tags.len() == 0 {
        lemma_split_on_whole(text, ',');
        assert(trimmed_pieces =~= seq![trim(Seq::<char>::empty())]);
        assert(trim(Seq::<char>::empty()) =~= Seq::<char>::empty());
        assert(trimmed_pieces.filter(|t: Seq<char>| t.len() > 0) =~= Seq::<Seq<char>>::empty()) by {
            reveal_with_fuel(Seq::<Seq<char>>::filter, 2);
            assert(trimmed_pieces.drop_last() =~= Seq::<Seq<char>>::empty());
        }
    } else {
        assert(Seq::<char>::empty() + text =~= text);
        lemma_split_joined_tags(Seq::<char>::empty(), tags);
        assert(Seq::<char>::empty() + tags[0] =~= tags[0]);
        assert(trimmed_pieces =~= tags) by {
            let pieces = split_on(text, ',');
            assert forall|k: int| 0 <= k < tags.len() implies trimmed_pieces[k] == tags[k] by {
                if k == 0 {
                    assert(pieces[0] == tags[0]);
                } else {
                    assert(pieces[k] == seq![' '] + tags[k]);
                    lemma_trim_after_space(tags[k]);
                }
            }
        }
        lemma_filter_keeps_nonempty(tags);
    }
}

/// Keeping the non-empty strings of a list without empty ones keeps the whole list.
proof fn lemma_filter_keeps_nonempty(ts: Seq<Seq<char>>)
    requires
        forall|i: int| 0 <= i < ts.len() ==> (#[trigger] ts[i]).len() > 0,
    ensures
        ts.filter(|t: Seq<char>| t.len() > 0) == ts,
    decreases ts.len(),
{
    reveal(Seq::filter);
    if ts.len() > 0 {
        lemma_filter_keeps_nonempty(ts.drop_last());
        assert(ts.drop_last().push(ts.last()) =~= ts);
    }
}

/// A repository that a form line carries intact: its URL is one word, and so is its
/// branch when it has one.
pub open spec fn fits_one_line(p: (Seq<char>, Option<Seq<char>>)) -> bool {
    is_word(p.0) && match p.1 {
        Some(b) => is_word(b),
        None => true,
    }
}

/// The form line of such a repository is a plain line whose words describe it again.
proof fn lemma_repo_line_reads_back(p: (Seq<char>, Option<Seq<char>>))
    requires
        fits_one_line(p),
    ensures
        is_plain_line(repo_line(p)),
        words_of(repo_line(p)).len() > 0,
        repo_of_words(words_of(repo_line(p))) == p,
{
    reveal_strlit(" ");
    let line = repo_line(p);
    let url = p.0;
    match p.1 {
        Some(b) => {
            assert(line =~= url + seq![' '] + b);
            lemma_words_of_pair(url, b);
            assert forall|i: int| 0 <= i < line.len() implies line[i] != '\n' by {
                if i < url.len() {
                    assert(line[i] == url[i]);
                    assert(!unicode_whitespace(url[i]));
                } else if i > url.len() {
                    assert(line[i] == b[i - url.len() - 1]);
                    assert(!unicode_whitespace(b[i - url.len() - 1]));
                }
            }
            assert(line.last() == b[b.len() - 1]);
            assert(!unicode_whitespace(b[b.len() - 1]));
        },
        None => {
            assert(line == url);
            lemma_words_of_word(url);
            assert forall|i: int| 0 <= i < line.len() implies line[i] != '\n' by {
                assert(!unicode_whitespace(url[i]));
            }
            assert(!unicode_whitespace(url[url.len() - 1]));
        },
    }
    if line.contains('\n') {
        let i = choose|i: int| 0 <= i < line.len() && line[i] == '\n';
        assert(line[i] != '\n');
    }
}

/// The form lines of repositories that each fit one line describe those repositories.
proof fn lemma_repos_of_own_lines(repos: Seq<(Seq<char>, Option<Seq<char>>)>)
    requires
        forall|i: int| 0 <= i < repos.len() ==> fits_one_line(#[trigger] repos[i]),
    ensures
        repos_of_lines(repos.map_values(|p: (Seq<char>, Option<Seq<char>>)| repo_line(p))) == repos,
    decreases repos.len(),
{
    let ls = repos.map_values(|p: (Seq<char>, Option<Seq<char>>)| repo_line(p));
    if repos.len() == 0 {
        assert(ls =~= Seq::<Seq<char>>::empty());
        assert(repos_of_lines(ls) =~= repos);
    } else {
        let init = repos.drop_last();
        assert(ls.drop_last() =~= init.map_values(|p: (Seq<char>, Option<Seq<char>>)| repo_line(p)));
        assert forall|i: int| 0 <= i < init.len() implies fits_one_line(#[trigger] init[i]) by {
            assert(init[i] == repos[i]);
        }
        lemma_repos_of_own_lines(init);
        assert(fits_one_line(repos.last()));
        lemma_repo_line_reads_back(repos.last());
        assert(ls.last() == repo_line(repos.last()));
        assert(init.push(repos.last()) =~= repos);
    }
}

/// Repositories shown in the edit form and saved unchanged come back as the same
/// repositories, as long as each URL, and each branch a repository names, is a single word.
pub proof fn lemma_repos_text_roundtrip(repos: Seq<(Seq<char>, Option<Seq<char>>)>)
    requires
        forall|i: int| 0 <= i < repos.len() ==> fits_one_line(#[trigger] repos[i]),
    ensures
        repos_of_lines(lines_of(join_with(repos.map_values(|p: (Seq<char>, Option<Seq<char>>)| repo_line(p)), "\n"@)))
            == repos,
{
    let ls = repos.map_values(|p: (Seq<char>, Option<Seq<char>>)| repo_line(p));
    assert forall|i: int| 0 <= i < ls.len() implies is_plain_line(#[trigger] ls[i]) by {
        assert(fits_one_line(repos[i]));
        lemma_repo_line_reads_back(repos[i]);
    }
    lemma_lines_of_joined(ls);
    lemma_repos_of_own_lines(repos);
}

/// Every tag read from the form's input is trimmed and non-empty.
pub proof fn lemma_tags_trimmed_and_nonempty(text: Seq<char>)
    ensures
        forall|i: int|
            0 <= i < tags_of(text).len() ==> (#[trigger] tags_of(text)[i]).len() > 0 && trim(tags_of(text)[i])
                == tags_of(text)[i],
{
    let pieces = split_on(text, ',').map_values(|p: Seq<char>| trim(p));
    let keep = |t: Seq<char>| t.len() > 0;
    assert forall|i: int| 0 <= i < tags_of(text).len() implies (#[trigger] tags_of(text)[i]).len() > 0 && trim(
        tags_of(text)[i],
    ) == tags_of(text)[i] by {
        let t = tags_of(text)[i];
        pieces.lemma_filter_pred(keep, i);
        assert(pieces.filter(keep).contains(t));
        pieces.lemma_filter_contains_rev(keep, t);
        let j = choose|j: int| 0 <= j < pieces.len() && pieces[j] == t;
        lemma_trim_idempotent(split_on(text, ',')[j]);
    }
}

// ─── Header checkbox and machine options ────────────────────────────────────

impl RState {
    /// What the header checkbox does over the visible rows `visible`: clear the selection
    /// when there is a visible row and every visible row is selected, otherwise select
    /// exactly the visible rows.
    pub fn select_all_toggle(&self, visible: Vec<String>) -> (r: RAction)
        ensures
            r == (if visible@.len() > 0 && all_among(visible.deep_view(), self.selected.deep_view()) {
                RAction::ClearSelection
            } else {
                RAction::SelectAll(visible)
            }),
    {
        if visible.len() > 0 && all_listed(&visible, &self.selected) {
            RAction::ClearSelection
        } else {
            RAction::SelectAll(visible)
        }
    }
}

/// The machine-facet options: every machine some routine targets and the current machine
/// when it is known, sorted, each once.
pub fn routine_machine_options(routines: &[Routine], current: &Option<String>) -> (r: Vec<String>)
    ensures
        strictly_sorted(r.deep_view()),
        forall|m: Seq<char>| #[trigger] r.deep_view().contains(m) <==> ((exists|i: int|
            0 <= i < routines@.len() && (#[trigger] routines@[i]).machines.deep_view().contains(m)) || opt_text(*current)
            == Some(m)),
{
    let mut options = distinct_machines_r(routines);
    match current {
        Some(cm) => insert_sorted(&mut options, cm),
        None => {},
    }
    options
}

} // verus!




