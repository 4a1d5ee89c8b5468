//! The overview page's aggregation: routines reduced to schedule sources, the KPI
//! tile counts, the merged soonest-first upcoming-runs list, and the "needs
//! attention" triage.

use vstd::prelude::*;
use crate::order::{is_stable_sort_by, lemma_sorted_views, stable_sort, text_le, Pair, Text, TotalOrder};
use crate::routines::{all_blank, clone_opt_string, machines_blank, opt_text, snoozed_at, Routine, RoutineView};
use crate::schedule::{due_within, is_due_within, next_fire_after, schedule_valid};
use crate::text::{chars_of, concat, decimal, decimal_chars, string_of};

verus! {

/// How many of the most recent runs across the fleet the overview shows.
pub const RECENT_RUNS_LIMIT: usize = 8;

/// An enabled source whose next fire lands within this many seconds is due soon.
pub const DUE_SOON_WINDOW_SECS: i64 = 3_600;

/// How many of the soonest upcoming runs the merged timeline shows.
pub const UPCOMING_LIMIT: usize = 8;

/// Which kind of scheduled entity a row refers to.
#[derive(Debug, Clone, Copy, PartialEq, Eq, Structural)]
pub enum Kind {
    Routine,
}

/// A schedule-bearing entity reduced to what the overview math needs.
#[derive(Debug, PartialEq)]
pub struct SchedSource {
    pub kind: Kind,
    /// Id used to trigger the entity.
    pub id: String,
    /// Display name.
    pub label: String,
    /// Raw cron expression.
    pub schedule: String,
    /// Server-provided description of the schedule.
    pub human: Option<String>,
    pub enabled: bool,
    /// The entity names no real machine, so it fires nowhere.
    pub machines_empty: bool,
    /// Whether the entity's agent is registered, when that applies.
    pub agent_registered: Option<bool>,
    /// Number of open flags raised against the entity.
    pub flag_count: usize,
    /// Scheduled fires are currently suppressed.
    pub snoozed: bool,
}

/// The mathematical content of a [`SchedSource`].
pub struct SchedView {
    pub kind: Kind,
    pub id: Seq<char>,
    pub label: Seq<char>,
    pub schedule: Seq<char>,
    pub human: Option<Seq<char>>,
    pub enabled: bool,
    pub machines_empty: bool,
    pub agent_registered: Option<bool>,
    pub flag_count: usize,
    pub snoozed: bool,
}

impl View for SchedSource {
    type V = SchedView;

    open spec fn view(&self) -> SchedView {
        SchedView {
            kind: self.kind,
            id: self.id@,
            label: self.label@,
            schedule: self.schedule@,
            human: opt_text(self.human),
            enabled: self.enabled,
            machines_empty: self.machines_empty,
            agent_registered: self.agent_registered,
            flag_count: self.flag_count,
            snoozed: self.snoozed,
        }
    }
}

impl Clone for SchedSource {
    fn clone(&self) -> (r: Self)
        ensures
            r@ == self@,
    {
        SchedSource {
            kind: self.kind,
            id: self.id.clone(),
            label: self.label.clone(),
            schedule: self.schedule.clone(),
            human: clone_opt_string(&self.human),
            enabled: self.enabled,
            machines_empty: self.machines_empty,
            agent_registered: self.agent_registered,
            flag_count: self.flag_count,
            snoozed: self.snoozed,
        }
    }
}

/// The views of a source list.
pub open spec fn sources_view(v: Seq<SchedSource>) -> Seq<SchedView> {
    v.map_values(|s: SchedSource| s@)
}

/// The schedule source a routine maps onto as of `now`.
pub open spec fn sched_of(r: RoutineView, now: i64) -> SchedView {
    SchedView {
        kind: Kind::Routine,
        id: r.id,
        label: r.title,
        schedule: r.schedule,
        human: r.schedule_description,
        enabled: r.enabled,
        machines_empty: all_blank(r.machines),
        agent_registered: Some(r.agent_registered),
        flag_count: r.flag_count,
        snoozed: snoozed_at(r, now),
    }
}

/// Whether a routine's scheduled fires are suppressed as of `now`.
pub fn is_snoozed(routine: &Routine, now: i64) -> (r: bool)
    ensures
        r == snoozed_at(routine@, now),
{
    (match routine.snoozed_until {
        Some(until) => (until as i64) > now,
        None => false,
    }) || match routine.skip_runs {
        Some(runs) => runs > 0,
        None => false,
    }
}

/// Whether no entry names a real machine: the list is empty or every entry is blank.
pub fn targets_no_machine(machines: &Vec<String>) -> (r: bool)
    ensures
        r == all_blank(machines.deep_view()),
{
    machines_blank(machines)
}

/// The schedule source of a routine as of `now`.
pub fn from_routine(routine: &Routine, now: i64) -> (s: SchedSource)
    ensures
        s@ == sched_of(routine@, now),
{
    SchedSource {
        kind: Kind::Routine,
        id: routine.id.clone(),
        label: routine.title.clone(),
        schedule: routine.schedule.clone(),
        human: clone_opt_string(&routine.schedule_description),
        enabled: routine.enabled,
        machines_empty: targets_no_machine(&routine.machines),
        agent_registered: Some(routine.agent_registered),
        flag_count: routine.flag_count,
        snoozed: is_snoozed(routine, now),
    }
}

/// The schedule sources of a routine list as of `now`.
pub fn sources_of(routines: &[Routine], now: i64) -> (r: Vec<SchedSource>)
    ensures
        sources_view(r@) == routines@.map_values(|x: Routine| sched_of(x@, now)),
{
    let mut out: Vec<SchedSource> = Vec::new();
    let mut i: usize = 0;
    while i < routines.len()
        invariant
            i <= routines@.len(),
            out@.len() == i,
            forall|k: int| 0 <= k < i ==> (#[trigger] out@[k])@ == sched_of(routines@[k]@, now),
        decreases routines@.len() - i,
    {
        out.push(from_routine(&routines[i], now));
        i = i + 1;
    }
    proof {
        assert(sources_view(out@) =~= routines@.map_values(|x: Routine| sched_of(x@, now)));
    }
    out
}

/// Possible next fires of `srcs` after `now`: each one found lies after `now` on a
/// source with a valid schedule.
pub open spec fn plausible_source_nexts(srcs: Seq<SchedView>, nexts: Seq<Option<i64>>, now: i64) -> bool {
    &&& nexts.len() == srcs.len()
    &&& forall|i: int|
        0 <= i < srcs.len() ==> (#[trigger] nexts[i] matches Some(t) ==> t > now && schedule_valid(srcs[i].schedule))
}

/// Looks up the next fire after `now` of every enabled source.
fn next_fires(sources: &[SchedSource], now: i64) -> (r: Vec<Option<i64>>)
    ensures
        plausible_source_nexts(sources_view(sources@), r@, now),
        forall|i: int| 0 <= i < r@.len() && !sources@[i].enabled ==> r@[i] is None,
{
    let mut out: Vec<Option<i64>> = Vec::new();
    let mut i: usize = 0;
    while i < sources.len()
        invariant
            i <= sources@.len(),
            out@.len() == i,
            forall|k: int|
                0 <= k < i ==> (#[trigger] out@[k] matches Some(t) ==> t > now && schedule_valid(sources@[k].schedule@)),
            forall|k: int| 0 <= k < i && !sources@[k].enabled ==> out@[k] is None,
        decreases sources@.len() - i,
    {
        let next = if sources[i].enabled {
            next_fire_after(sources[i].schedule.as_str(), now)
        } else {
            None
        };
        out.push(next);
        i = i + 1;
    }
    out
}

// ─── Attention ──────────────────────────────────────────────────────────────

/// Why an enabled entity needs attention, in triage order: a dormant entity outranks a
/// dead schedule, which outranks a missing agent, which outranks open flags.
#[derive(Debug, Clone, Copy, PartialEq, Eq, Structural)]
pub enum AttentionReason {
    /// Enabled but assigned to no machine: it fires nowhere.
    Dormant,
    /// The schedule yields no future fire: it never runs again.
    DeadSchedule,
    /// The agent is not registered: every run errors out.
    AgentUnregistered,
    /// The agent raised flags during a run: needs review.
    HasOpenFlags,
}

/// Triage priority of a reason; lower sorts first.
pub open spec fn reason_rank(r: AttentionReason) -> u8 {
    match r {
        AttentionReason::Dormant => 0,
        AttentionReason::DeadSchedule => 1,
        AttentionReason::AgentUnregistered => 2,
        AttentionReason::HasOpenFlags => 3,
    }
}

/// The badge text of a reason.
pub open spec fn reason_badge(r: AttentionReason) -> Seq<char> {
    match r {
        AttentionReason::Dormant => "DORMANT"@,
        AttentionReason::DeadSchedule => "DEAD SCHEDULE"@,
        AttentionReason::AgentUnregistered => "AGENT MISSING"@,
        AttentionReason::HasOpenFlags => "OPEN FLAGS"@,
    }
}

/// The explanation of a reason's operational consequence.
pub open spec fn reason_detail(r: AttentionReason) -> Seq<char> {
    match r {
        AttentionReason::Dormant => "assigned to no machine \\u{2014} fires nowhere"@,
        AttentionReason::DeadSchedule => "schedule has no future fire \\u{2014} never runs again"@,
        AttentionReason::AgentUnregistered => "agent not registered \\u{2014} every run errors"@,
        AttentionReason::HasOpenFlags => "agent raised flags during a run \\u{2014} needs review"@,
    }
}

impl AttentionReason {
    /// Triage priority; lower sorts first.
    pub fn rank(self) -> (r: u8)
        ensures
            r == reason_rank(self),
    {
        match self {
            AttentionReason::Dormant => 0,
            AttentionReason::DeadSchedule => 1,
            AttentionReason::AgentUnregistered => 2,
            AttentionReason::HasOpenFlags => 3,
        }
    }

    /// Short uppercase badge label.
    pub fn badge(self) -> (r: &'static str)
        ensures
            r@ == reason_badge(self),
    {
        match self {
            AttentionReason::Dormant => "DORMANT",
            AttentionReason::DeadSchedule => "DEAD SCHEDULE",
            AttentionReason::AgentUnregistered => "AGENT MISSING",
            AttentionReason::HasOpenFlags => "OPEN FLAGS",
        }
    }

    /// Human explanation of the operational consequence.
    pub fn detail(self) -> (r: &'static str)
        ensures
            r@ == reason_detail(self),
    {
        match self {
            AttentionReason::Dormant => "assigned to no machine \\u{2014} fires nowhere",
            AttentionReason::DeadSchedule => "schedule has no future fire \\u{2014} never runs again",
            AttentionReason::AgentUnregistered => "agent not registered \\u{2014} every run errors",
            AttentionReason::HasOpenFlags => "agent raised flags during a run \\u{2014} needs review",
        }
    }
}

/// The single most fundamental fault of source `s`, where `fires` says whether its
/// schedule yields a future fire; `None` when it is healthy. Disabled entities are
/// intentional and never flagged.
pub open spec fn attention_of(s: SchedView, fires: bool) -> Option<AttentionReason> {
    if !s.enabled {
        None
    } else if s.machines_empty {
        Some(AttentionReason::Dormant)
    } else if !fires {
        Some(AttentionReason::DeadSchedule)
    } else if s.agent_registered == Some(false) {
        Some(AttentionReason::AgentUnregistered)
    } else if s.flag_count > 0 {
        Some(AttentionReason::HasOpenFlags)
    } else {
        None
    }
}

/// The fault of `source`, given whether its schedule yields a future fire.
pub fn attention_given(source: &SchedSource, fires: bool) -> (r: Option<AttentionReason>)
    ensures
        r == attention_of(source@, fires),
{
    if !source.enabled {
        return None;
    }
    if source.machines_empty {
        return Some(AttentionReason::Dormant);
    }
    if !fires {
        return Some(AttentionReason::DeadSchedule);
    }
    if source.agent_registered == Some(false) {
        return Some(AttentionReason::AgentUnregistered);
    }
    if source.flag_count > 0 {
        return Some(AttentionReason::HasOpenFlags);
    }
    None
}

/// The fault of `source` as of `now`. Its next fire is looked up only for an enabled
/// source with a machine; whatever that lookup says, the answer is [`attention_of`]
/// for it, and a source counted as firing has a valid schedule.
pub fn attention_reason(source: &SchedSource, now: i64) -> (r: Option<AttentionReason>)
    ensures
        exists|fires: bool| (fires ==> schedule_valid(source.schedule@)) && r == attention_of(source@, fires),
{
    let fires = if source.enabled && !source.machines_empty {
        next_fire_after(source.schedule.as_str(), now).is_some()
    } else {
        false
    };
    attention_given(source, fires)
}

/// One enabled-but-misconfigured entity of the attention panel.
#[derive(Debug, PartialEq)]
pub struct AttentionItem {
    pub kind: Kind,
    pub label: String,
    /// The single most fundamental fault to fix.
    pub reason: AttentionReason,
    /// Open flag count of the entity.
    pub flag_count: usize,
}

/// The mathematical content of an [`AttentionItem`].
pub struct AttentionView {
    pub kind: Kind,
    pub label: Seq<char>,
    pub reason: AttentionReason,
    pub flag_count: usize,
}

impl View for AttentionItem {
    type V = AttentionView;

    open spec fn view(&self) -> AttentionView {
        AttentionView { kind: self.kind, label: self.label@, reason: self.reason, flag_count: self.flag_count }
    }
}

/// The attention items of `srcs` in input order, `nexts[i]` being the next fire of
/// `srcs[i]`.
pub open spec fn attention_candidates(srcs: Seq<SchedView>, nexts: Seq<Option<i64>>) -> Seq<AttentionView>
    decreases srcs.len(),
{
    if srcs.len() == 0 {
        seq![]
    } else {
        let rest = attention_candidates(srcs.drop_last(), nexts.drop_last());
        let s = srcs.last();
        match attention_of(s, nexts.last() is Some) {
            Some(reason) => rest.push(AttentionView { kind: s.kind, label: s.label, reason, flag_count: s.flag_count }),
            None => rest,
        }
    }
}

/// Attention order: worst fault first, then label.
pub open spec fn attention_le(a: AttentionView, b: AttentionView) -> bool {
    ||| reason_rank(a.reason) < reason_rank(b.reason)
    ||| reason_rank(a.reason) == reason_rank(b.reason) && text_le(a.label, b.label)
}

/// The attention items of `sources` in input order, from their next fires.
fn collect_attention(sources: &[SchedSource], nexts: &Vec<Option<i64>>) -> (r: Vec<AttentionItem>)
    requires
        nexts@.len() == sources@.len(),
    ensures
        r@.map_values(|x: AttentionItem| x@) == attention_candidates(sources_view(sources@), nexts@),
{
    let mut out: Vec<AttentionItem> = Vec::new();
    let mut i: usize = 0;
    while i < sources.len()
        invariant
            i <= sources@.len(),
            nexts@.len() == sources@.len(),
            out@.map_values(|x: AttentionItem| x@) == attention_candidates(
                sources_view(sources@.take(i as int)),
                nexts@.take(i as int),
            ),
        decreases sources@.len() - i,
    {
        let s = &sources[i];
        let ghost before = out@;
        let reason = attention_given(s, nexts[i].is_some());
        proof {
            assert(sources_view(sources@.take(i + 1)).drop_last() =~= sources_view(sources@.take(i as int)));
            assert(nexts@.take(i + 1).drop_last() =~= nexts@.take(i as int));
            assert(sources_view(sources@.take(i + 1)).last() == s@);
            assert(nexts@.take(i + 1).last() == nexts@[i as int]);
        }
        match reason {
            Some(r) => {
                out.push(AttentionItem { kind: s.kind, label: s.label.clone(), reason: r, flag_count: s.flag_count });
                proof {
                    assert(out@.map_values(|x: AttentionItem| x@) =~= before.map_values(|x: AttentionItem| x@).push(
                        AttentionView { kind: s.kind, label: s.label@, reason: r, flag_count: s.flag_count },
                    ));
                }
            },
            None => {},
        }
        i = i + 1;
    }
    proof {
        assert(sources@.take(sources@.len() as int) =~= sources@);
        assert(nexts@.take(nexts@.len() as int) =~= nexts@);
    }
    out
}

/// `items` stably sorted worst fault first, then by label.
fn sort_attention(items: Vec<AttentionItem>) -> (r: Vec<AttentionItem>)
    ensures
        is_stable_sort_by(
            r@.map_values(|x: AttentionItem| x@),
            items@.map_values(|x: AttentionItem| x@),
            |a: AttentionView, b: AttentionView| attention_le(a, b),
        ),
{
    let ghost inp = items@;
    let mut items = items;
    let mut keys: Vec<Pair<u64, Text>> = Vec::new();
    let mut i: usize = 0;
    while i < items.len()
        invariant
            i <= items@.len(),
            items@ == inp,
            keys@.len() == i,
            forall|k: int|
                0 <= k < i ==> (#[trigger] keys@[k]).first == reason_rank(inp[k].reason) && keys@[k].second.chars@
                    == inp[k].label@,
        decreases items@.len() - i,
    {
        let key = Pair { first: items[i].reason.rank() as u64, second: Text { chars: chars_of(items[i].label.as_str()) } };
        keys.push(key);
        i = i + 1;
    }
    let ghost ks = keys@;
    let perm = stable_sort(&mut items, &mut keys);
    proof {
        assert forall|a: int, b: int| 0 <= a < inp.len() && 0 <= b < inp.len() implies (#[trigger] ks[a]).key_le(
            #[trigger] ks[b],
        ) == attention_le(inp[a]@, inp[b]@) by {
        }
        lemma_sorted_views(items@, inp, ks, perm@, |a: AttentionView, b: AttentionView| attention_le(a, b));
    }
    items
}

/// The attention list of `sources` when `nexts[i]` is the next fire of `sources[i]`:
/// the sources [`attention_candidates`] keeps, worst fault first, then by label, then in
/// input order.
pub fn attention_items_given(sources: &[SchedSource], nexts: &Vec<Option<i64>>) -> (r: Vec<AttentionItem>)
    requires
        nexts@.len() == sources@.len(),
    ensures
        is_stable_sort_by(
            r@.map_values(|x: AttentionItem| x@),
            attention_candidates(sources_view(sources@), nexts@),
            |a: AttentionView, b: AttentionView| attention_le(a, b),
        ),
{
    let items = collect_attention(sources, nexts);
    sort_attention(items)
}

/// All enabled-but-misconfigured sources as of `now`, worst fault first, ties broken by
/// label, then input order. Each source's next fire is looked up; whatever comes back,
/// the list is the one [`attention_candidates`] and [`attention_le`] give for it.
pub fn attention_items(sources: &[SchedSource], now: i64) -> (r: Vec<AttentionItem>)
    ensures
        exists|nexts: Seq<Option<i64>>|
            {
                &&& plausible_source_nexts(sources_view(sources@), nexts, now)
                &&& is_stable_sort_by(
                    r@.map_values(|x: AttentionItem| x@),
                    attention_candidates(sources_view(sources@), nexts),
                    |a: AttentionView, b: AttentionView| attention_le(a, b),
                )
            },
{
    let nexts = next_fires(sources, now);
    attention_items_given(sources, &nexts)
}

// ─── Upcoming runs ──────────────────────────────────────────────────────────

/// One entry of the merged upcoming-runs timeline.
#[derive(Debug, PartialEq)]
pub struct UpcomingRun {
    pub kind: Kind,
    /// Id passed to the trigger endpoint.
    pub id: String,
    pub label: String,
    /// Human schedule description, when present.
    pub human: Option<String>,
    /// Raw cron expression, the fallback when `human` is absent.
    pub schedule: String,
    /// The next fire, as a Unix timestamp.
    pub at: i64,
    /// Whether `at` lands within the due-soon window.
    pub soon: bool,
    pub flag_count: usize,
}

/// The mathematical content of an [`UpcomingRun`].
pub struct UpcomingView {
    pub kind: Kind,
    pub id: Seq<char>,
    pub label: Seq<char>,
    pub human: Option<Seq<char>>,
    pub schedule: Seq<char>,
    pub at: i64,
    pub soon: bool,
    pub flag_count: usize,
}

impl View for UpcomingRun {
    type V = UpcomingView;

    open spec fn view(&self) -> UpcomingView {
        UpcomingView {
            kind: self.kind,
            id: self.id@,
            label: self.label@,
            human: opt_text(self.human),
            schedule: self.schedule@,
            at: self.at,
            soon: self.soon,
            flag_count: self.flag_count,
        }
    }
}

/// The upcoming run of source `s` firing at `at`, seen at `now`.
pub open spec fn run_of(s: SchedView, at: i64, now: i64) -> UpcomingView {
    UpcomingView {
        kind: s.kind,
        id: s.id,
        label: s.label,
        human: s.human,
        schedule: s.schedule,
        at,
        soon: due_within(Some(at), now, DUE_SOON_WINDOW_SECS),
        flag_count: s.flag_count,
    }
}

/// The upcoming runs of the enabled, unsnoozed sources of `srcs` that have a next fire,
/// in input order.
pub open spec fn upcoming_candidates(srcs: Seq<SchedView>, nexts: Seq<Option<i64>>, now: i64) -> Seq<UpcomingView>
    decreases srcs.len(),
{
    if srcs.len() == 0 {
        seq![]
    } else {
        let rest = upcoming_candidates(srcs.drop_last(), nexts.drop_last(), now);
        let s = srcs.last();
        match nexts.last() {
            Some(at) => if s.enabled && !s.snoozed {
                rest.push(run_of(s, at, now))
            } else {
                rest
            },
            None => rest,
        }
    }
}

/// Timeline order: soonest first, then label.
pub open spec fn upcoming_le(a: UpcomingView, b: UpcomingView) -> bool {
    ||| a.at < b.at
    ||| a.at == b.at && text_le(a.label, b.label)
}

fn collect_upcoming(sources: &[SchedSource], nexts: &Vec<Option<i64>>, now: i64) -> (r: Vec<UpcomingRun>)
    requires
        nexts@.len() == sources@.len(),
    ensures
        r@.map_values(|x: UpcomingRun| x@) == upcoming_candidates(sources_view(sources@), nexts@, now),
{
    let mut out: Vec<UpcomingRun> = Vec::new();
    let mut i: usize = 0;
    while i < sources.len()
        invariant
            i <= sources@.len(),
            nexts@.len() == sources@.len(),
            out@.map_values(|x: UpcomingRun| x@) == upcoming_candidates(
                sources_view(sources@.take(i as int)),
                nexts@.take(i as int),
                now,
            ),
        decreases sources@.len() - i,
    {
        let s = &sources[i];
        let ghost before = out@;
        proof {
            assert(sources_view(sources@.take(i + 1)).drop_last() =~= sources_view(sources@.take(i as int)));
            assert(nexts@.take(i + 1).drop_last() =~= nexts@.take(i as int));
            assert(sources_view(sources@.take(i + 1)).last() == s@);
            assert(nexts@.take(i + 1).last() == nexts@[i as int]);
        }
        match nexts[i] {
            Some(at) => {
                if s.enabled && !s.snoozed {
                    let run = UpcomingRun {
                        kind: s.kind,
                        id: s.id.clone(),
                        label: s.label.clone(),
                        human: clone_opt_string(&s.human),
                        schedule: s.schedule.clone(),
                        at,
                        soon: is_due_within(Some(at), now, DUE_SOON_WINDOW_SECS),
                        flag_count: s.flag_count,
                    };
                    out.push(run);
                    proof {
                        assert(out@.map_values(|x: UpcomingRun| x@) =~= before.map_values(|x: UpcomingRun| x@).push(
                            run_of(s@, at, now),
                        ));
                    }
                }
            },
            None => {},
        }
        i = i + 1;
    }
    proof {
        assert(sources@.take(sources@.len() as int) =~= sources@);
        assert(nexts@.take(nexts@.len() as int) =~= nexts@);
    }
    out
}

fn sort_upcoming(runs: Vec<UpcomingRun>) -> (r: Vec<UpcomingRun>)
    ensures
        is_stable_sort_by(
            r@.map_values(|x: UpcomingRun| x@),
            runs@.map_values(|x: UpcomingRun| x@),
            |a: UpcomingView, b: UpcomingView| upcoming_le(a, b),
        ),
{
    let ghost inp = runs@;
    let mut items = runs;
    let mut keys: Vec<Pair<i64, Text>> = Vec::new();
    let mut i: usize = 0;
    while i < items.len()
        invariant
            i <= items@.len(),
            items@ == inp,
            keys@.len() == i,
            forall|k: int| 0 <= k < i ==> (#[trigger] keys@[k]).first == inp[k].at && keys@[k].second.chars@ == inp[k].label@,
        decreases items@.len() - i,
    {
        let key = Pair { first: items[i].at, second: Text { chars: chars_of(items[i].label.as_str()) } };
        keys.push(key);
        i = i + 1;
    }
    let ghost ks = keys@;
    let perm = stable_sort(&mut items, &mut keys);
    proof {
        assert forall|a: int, b: int| 0 <= a < inp.len() && 0 <= b < inp.len() implies (#[trigger] ks[a]).key_le(
            #[trigger] ks[b],
        ) == upcoming_le(inp[a]@, inp[b]@) by {
        }
        lemma_sorted_views(items@, inp, ks, perm@, |a: UpcomingView, b: UpcomingView| upcoming_le(a, b));
    }
    items
}

/// The upcoming runs of `sources` as of `now` when `nexts[i]` is the next fire of
/// `sources[i]`: the first [`UPCOMING_LIMIT`] runs of the stable sort of
/// [`upcoming_candidates`], soonest first, ties by label.
pub fn upcoming_runs_given(sources: &[SchedSource], nexts: &Vec<Option<i64>>, now: i64) -> (r: Vec<UpcomingRun>)
    requires
        nexts@.len() == sources@.len(),
    ensures
        exists|sorted: Seq<UpcomingView>|
            {
                &&& is_stable_sort_by(
                    sorted,
                    upcoming_candidates(sources_view(sources@), nexts@, now),
                    |a: UpcomingView, b: UpcomingView| upcoming_le(a, b),
                )
                &&& r@.map_values(|x: UpcomingRun| x@) == sorted.take(
                    if sorted.len() <= UPCOMING_LIMIT { sorted.len() as int } else { UPCOMING_LIMIT as int },
                )
            },
{
    let runs = collect_upcoming(sources, nexts, now);
    let mut sorted = sort_upcoming(runs);
    let ghost all = sorted@.map_values(|x: UpcomingRun| x@);
    sorted.truncate(UPCOMING_LIMIT);
    proof {
        assert(sorted@.map_values(|x: UpcomingRun| x@) =~= all.take(
            if all.len() <= UPCOMING_LIMIT { all.len() as int } else { UPCOMING_LIMIT as int },
        ));
    }
    sorted
}

/// The merged, soonest-first list of at most [`UPCOMING_LIMIT`] next fires across the
/// enabled, unsnoozed sources as of `now`; sources without a valid future fire drop out
/// and ties on the fire time break by label. Whatever the next-fire lookups return, the
/// list is the first runs of the stable sort of [`upcoming_candidates`] for them.
pub fn upcoming_runs(sources: &[SchedSource], now: i64) -> (r: Vec<UpcomingRun>)
    ensures
        exists|nexts: Seq<Option<i64>>, sorted: Seq<UpcomingView>|
            {
                &&& plausible_source_nexts(sources_view(sources@), nexts, now)
                &&& is_stable_sort_by(
                    sorted,
                    upcoming_candidates(sources_view(sources@), nexts, now),
                    |a: UpcomingView, b: UpcomingView| upcoming_le(a, b),
                )
                &&& r@.map_values(|x: UpcomingRun| x@) == sorted.take(
                    if sorted.len() <= UPCOMING_LIMIT { sorted.len() as int } else { UPCOMING_LIMIT as int },
                )
            },
{
    let nexts = next_fires(sources, now);
    upcoming_runs_given(sources, &nexts, now)
}

/// A countdown to a fire `secs` seconds ahead: whole seconds under a minute, then whole
/// minutes, hours or days, each after "in ".
pub open spec fn countdown_text(secs: nat) -> Seq<char> {
    if secs < 60 {
        "in "@ + decimal(secs) + "s"@
    } else if secs < 3600 {
        "in "@ + decimal(secs / 60) + "m"@
    } else if secs < 86400 {
        "in "@ + decimal(secs / 3600) + "h"@
    } else {
        "in "@ + decimal(secs / 86400) + "d"@
    }
}

/// Seconds from `now` until `at`, zero when `at` has passed.
pub open spec fn secs_until(now: i64, at: i64) -> nat {
    if at > now {
        (at - now) as nat
    } else {
        0
    }
}

/// The countdown label from `now` to `at`.
pub fn fmt_until(now: i64, at: i64) -> (r: String)
    ensures
        r@ == countdown_text(secs_until(now, at)),
{
    let secs: u64 = if at > now {
        ((at as i128) - (now as i128)) as u64
    } else {
        0
    };
    let (n, unit) = if secs < 60 {
        (secs, "s")
    } else if secs < 3_600 {
        (secs / 60, "m")
    } else if secs < 86_400 {
        (secs / 3_600, "h")
    } else {
        (secs / 86_400, "d")
    };
    let head = chars_of("in ");
    let digits = decimal_chars(n);
    let tail = chars_of(unit);
    let a = concat(head.as_slice(), digits.as_slice());
    let b = concat(a.as_slice(), tail.as_slice());
    string_of(b.as_slice())
}

/// The countdown to the very next fire of `runs` (their first entry), or `None` when
/// nothing is scheduled.
pub fn next_run_summary(runs: &[UpcomingRun], now: i64) -> (r: Option<String>)
    ensures
        runs@.len() == 0 ==> r is None,
        runs@.len() > 0 ==> (r matches Some(t) && t@ == countdown_text(secs_until(now, runs@[0].at))),
{
    if runs.len() == 0 {
        None
    } else {
        Some(fmt_until(now, runs[0].at))
    }
}

// ─── KPI tiles ──────────────────────────────────────────────────────────────

/// The KPI tile counts.
#[derive(Debug, Clone, Copy, PartialEq, Eq, Structural)]
pub struct Kpis {
    /// All scheduled sources.
    pub total: usize,
    pub enabled: usize,
    pub disabled: usize,
    /// Enabled, unsnoozed sources firing within the due-soon window.
    pub due_soon: usize,
    /// Sources that need attention.
    pub attention: usize,
    /// Open flags across all sources.
    pub flags: usize,
    /// Enabled sources whose scheduled fires are suppressed.
    pub snoozed: usize,
    /// Enabled sources assigned to no machine.
    pub dormant: usize,
}

impl Default for Kpis {
    fn default() -> (r: Self)
        ensures
            r.total == 0 && r.enabled == 0 && r.disabled == 0 && r.due_soon == 0 && r.attention == 0 && r.flags == 0
                && r.snoozed == 0 && r.dormant == 0,
    {
        Kpis { total: 0, enabled: 0, disabled: 0, due_soon: 0, attention: 0, flags: 0, snoozed: 0, dormant: 0 }
    }
}

/// How many sources are enabled.
pub open spec fn enabled_count(srcs: Seq<SchedView>) -> nat
    decreases srcs.len(),
{
    if srcs.len() == 0 { 0 } else { enabled_count(srcs.drop_last()) + if srcs.last().enabled { 1nat } else { 0nat } }
}

/// How many sources are enabled, unsnoozed and due soon.
pub open spec fn due_count(srcs: Seq<SchedView>, nexts: Seq<Option<i64>>, now: i64) -> nat
    decreases srcs.len(),
{
    if srcs.len() == 0 {
        0
    } else {
        let s = srcs.last();
        due_count(srcs.drop_last(), nexts.drop_last(), now) + if s.enabled && !s.snoozed && due_within(
            nexts.last(),
            now,
            DUE_SOON_WINDOW_SECS,
        ) {
            1nat
        } else {
            0nat
        }
    }
}

/// How many sources are enabled but snoozed.
pub open spec fn snoozed_count(srcs: Seq<SchedView>) -> nat
    decreases srcs.len(),
{
    if srcs.len() == 0 {
        0
    } else {
        snoozed_count(srcs.drop_last()) + if srcs.last().enabled && srcs.last().snoozed { 1nat } else { 0nat }
    }
}

/// How many sources are enabled but assigned to no machine.
pub open spec fn dormant_count(srcs: Seq<SchedView>) -> nat
    decreases srcs.len(),
{
    if srcs.len() == 0 {
        0
    } else {
        dormant_count(srcs.drop_last()) + if srcs.last().enabled && srcs.last().machines_empty { 1nat } else { 0nat }
    }
}

/// The open flags across all sources.
pub open spec fn flag_total(srcs: Seq<SchedView>) -> nat
    decreases srcs.len(),
{
    if srcs.len() == 0 { 0 } else { flag_total(srcs.drop_last()) + (srcs.last().flag_count as nat) }
}

/// The KPI tiles of `srcs` as of `now`, `nexts[i]` being the next fire of `srcs[i]`.
pub open spec fn kpis_of(srcs: Seq<SchedView>, nexts: Seq<Option<i64>>, now: i64, k: Kpis) -> bool {
    &&& k.total == srcs.len()
    &&& k.enabled == enabled_count(srcs)
    &&& k.disabled == srcs.len() - enabled_count(srcs)
    &&& k.due_soon == due_count(srcs, nexts, now)
    &&& k.attention == attention_candidates(srcs, nexts).len()
    &&& k.flags == flag_total(srcs)
    &&& k.snoozed == snoozed_count(srcs)
    &&& k.dormant == dormant_count(srcs)
}

proof fn lemma_counts_bounded(srcs: Seq<SchedView>, nexts: Seq<Option<i64>>, now: i64)
    ensures
        enabled_count(srcs) <= srcs.len(),
        due_count(srcs, nexts, now) <= srcs.len(),
        snoozed_count(srcs) <= srcs.len(),
        dormant_count(srcs) <= srcs.len(),
        attention_candidates(srcs, nexts).len() <= srcs.len(),
    decreases srcs.len(),
{
    if srcs.len() > 0 {
        lemma_counts_bounded(srcs.drop_last(), nexts.drop_last(), now);
    }
}

/// Counts the KPI tiles of `sources` as of `now`; the open flags must total at most
/// `usize::MAX`. Each enabled source's next fire is looked up; whatever comes back, the
/// tiles are the ones [`kpis_of`] gives for it.
pub fn compute_kpis(sources: &[SchedSource], now: i64) -> (r: Kpis)
    requires
        flag_total(sources_view(sources@)) <= usize::MAX,
    ensures
        exists|nexts: Seq<Option<i64>>|
            plausible_source_nexts(sources_view(sources@), nexts, now) && kpis_of(sources_view(sources@), nexts, now, r),
{
    let nexts = next_fires(sources, now);
    kpis_given(sources, &nexts, now)
}

/// The KPI tiles of `sources` as of `now` when `nexts[i]` is the next fire of
/// `sources[i]`; the open flags must total at most `usize::MAX`.
pub fn kpis_given(sources: &[SchedSource], nexts: &Vec<Option<i64>>, now: i64) -> (r: Kpis)
    requires
        nexts@.len() == sources@.len(),
        flag_total(sources_view(sources@)) <= usize::MAX,
    ensures
        kpis_of(sources_view(sources@), nexts@, now, r),
{
    let ghost all = sources_view(sources@);
    let mut enabled: usize = 0;
    let mut due: usize = 0;
    let mut attention: usize = 0;
    let mut flags: usize = 0;
    let mut snoozed: usize = 0;
    let mut dormant: usize = 0;
    let mut i: usize = 0;
    while i < sources.len()
        invariant
            i <= sources@.len(),
            nexts@.len() == sources@.len(),
            all == sources_view(sources@),
            flag_total(all) <= usize::MAX,
            enabled == enabled_count(all.take(i as int)),
            due == due_count(all.take(i as int), nexts@.take(i as int), now),
            attention == attention_candidates(all.take(i as int), nexts@.take(i as int)).len(),
            flags == flag_total(all.take(i as int)),
            snoozed == snoozed_count(all.take(i as int)),
            dormant == dormant_count(all.take(i as int)),
        decreases sources@.len() - i,
    {
        let s = &sources[i];
        let ghost pre = all.take(i as int);
        let ghost post = all.take(i + 1);
        let ghost npre = nexts@.take(i as int);
        let ghost npost = nexts@.take(i + 1);
        proof {
            assert(post.drop_last() =~= pre);
            assert(npost.drop_last() =~= npre);
            assert(post.last() == s@);
            assert(npost.last() == nexts@[i as int]);
            lemma_counts_bounded(pre, npre, now);
            lemma_flag_prefix(all, i + 1);
        }
        if s.enabled {
            enabled = enabled + 1;
        }
        if s.enabled && !s.snoozed && is_due_within(nexts[i], now, DUE_SOON_WINDOW_SECS) {
            due = due + 1;
        }
        if attention_given(s, nexts[i].is_some()).is_some() {
            attention = attention + 1;
        }
        flags = flags + s.flag_count;
        if s.enabled && s.snoozed {
            snoozed = snoozed + 1;
        }
        if s.enabled && s.machines_empty {
            dormant = dormant + 1;
        }
        i = i + 1;
    }
    proof {
        assert(all.take(all.len() as int) =~= all);
        assert(nexts@.take(nexts@.len() as int) =~= nexts@);
        lemma_counts_bounded(all, nexts@, now);
    }
    Kpis {
        total: sources.len(),
        enabled,
        disabled: sources.len() - enabled,
        due_soon: due,
        attention,
        flags,
        snoozed,
        dormant,
    }
}

proof fn lemma_flag_prefix(srcs: Seq<SchedView>, j: int)
    requires
        0 <= j <= srcs.len(),
    ensures
        flag_total(srcs.take(j)) <= flag_total(srcs),
    decreases srcs.len(),
{
    if j < srcs.len() {
        lemma_flag_prefix(srcs.drop_last(), j);
        assert(srcs.drop_last().take(j) =~= srcs.take(j));
    } else {
        assert(srcs.take(j) =~= srcs);
    }
}

// ─── Laws ───────────────────────────────────────────────────────────────────

/// A disabled source never needs attention, whatever else is wrong with it.
pub proof fn lemma_disabled_needs_no_attention(s: SchedView, fires: bool)
    requires
        !s.enabled,
    ensures
        attention_of(s, fires) is None,
{
}

/// An enabled source with no machine is always reported dormant, the most fundamental
/// fault.
pub proof fn lemma_dormant_outranks(s: SchedView, fires: bool)
    requires
        s.enabled,
        s.machines_empty,
    ensures
        attention_of(s, fires) == Some(AttentionReason::Dormant),
{
}

/// Every tile count stays within the number of sources, and enabled plus disabled is the
/// total.
pub proof fn lemma_kpis_within_total(srcs: Seq<SchedView>, nexts: Seq<Option<i64>>, now: i64, k: Kpis)
    requires
        kpis_of(srcs, nexts, now, k),
    ensures
        k.enabled + k.disabled == k.total,
        k.due_soon <= k.enabled,
        k.attention <= k.total,
        k.snoozed <= k.enabled,
        k.dormant <= k.enabled,
{
    lemma_counts_bounded(srcs, nexts, now);
    lemma_subcounts(srcs, nexts, now);
}

proof fn lemma_subcounts(srcs: Seq<SchedView>, nexts: Seq<Option<i64>>, now: i64)
    ensures
        due_count(srcs, nexts, now) <= enabled_count(srcs),
        snoozed_count(srcs) <= enabled_count(srcs),
        dormant_count(srcs) <= enabled_count(srcs),
    decreases srcs.len(),
{
    if srcs.len() > 0 {
        lemma_subcounts(srcs.drop_last(), nexts.drop_last(), now);
    }
}

} // verus!
