//! The command palette's matching and ranking: the searchable command model,
//! fuzzy scoring, ranking, the routine→command builder and the keyboard
//! selection-index helpers.

use vstd::prelude::*;
use crate::order::{
    is_perm, is_stable_sort_by, lemma_perm_onto, lemma_sorted_views, lemma_stable_sort_of_ties, permuted, stable_sort, Rev,
    TotalOrder,
};
use crate::routines::{opt_text, Routine, RoutineView};
use crate::text::{
    blank, chars_of, concat, is_alphanumeric, is_blank, join_strings, join_with, lowercase_chars,
    owned, string_of, trim, trimmed,
    unicode_alphanumeric, unicode_lowercase,
};

verus! {

/// What a palette entry points at: a fixed page, or a routine.
#[derive(Clone, Copy, PartialEq, Eq, Debug, Structural)]
pub enum CmdKind {
    /// Jump to the OVERVIEW page.
    NavOverview,
    /// Jump to the ROUTINES page.
    NavRoutines,
    /// Jump to the HEATMAP page.
    NavHeatmap,
    /// Jump to the SETTINGS page.
    NavSettings,
    /// A specific routine (lands on the ROUTINES page).
    Routine,
    /// Re-poll server health.
    ActionRefresh,
    /// Open the stop-server confirmation.
    ActionStop,
    /// Toggle the light/dark theme.
    ActionToggleTheme,
}

/// The destination page of a [`CmdKind`].
#[derive(Clone, Copy, PartialEq, Eq, Debug, Structural)]
pub enum RouteKind {
    /// The OVERVIEW page (`/`).
    Home,
    /// The ROUTINES page (`/routines`).
    Routines,
    /// The HEATMAP page (`/heatmap`).
    Heatmap,
    /// The SETTINGS page (`/settings`).
    Settings,
}

/// One searchable destination in the palette.
#[derive(Clone, PartialEq, Eq, Debug)]
pub struct Command {
    /// What this entry points at.
    pub kind: CmdKind,
    /// Primary label shown and matched first.
    pub title: String,
    /// Secondary line (schedule description / route hint).
    pub subtitle: String,
    /// Extra terms folded into the fuzzy haystack.
    pub keywords: String,
}

/// The page a command navigates to; `None` for an action command.
pub open spec fn route_of(kind: CmdKind) -> Option<RouteKind> {
    match kind {
        CmdKind::NavOverview => Some(RouteKind::Home),
        CmdKind::NavRoutines | CmdKind::Routine => Some(RouteKind::Routines),
        CmdKind::NavHeatmap => Some(RouteKind::Heatmap),
        CmdKind::NavSettings => Some(RouteKind::Settings),
        CmdKind::ActionRefresh | CmdKind::ActionStop | CmdKind::ActionToggleTheme => None,
    }
}

/// The page a command navigates to, or `None` for an action command.
pub fn route_for(kind: CmdKind) -> (r: Option<RouteKind>)
    ensures
        r == route_of(kind),
{
    match kind {
        CmdKind::NavOverview => Some(RouteKind::Home),
        CmdKind::NavRoutines | CmdKind::Routine => Some(RouteKind::Routines),
        CmdKind::NavHeatmap => Some(RouteKind::Heatmap),
        CmdKind::NavSettings => Some(RouteKind::Settings),
        CmdKind::ActionRefresh | CmdKind::ActionStop | CmdKind::ActionToggleTheme => None,
    }
}

/// The short category badge text for a command.
pub fn badge_for(kind: CmdKind) -> (r: &'static str)
    ensures
        r@ == match kind {
            CmdKind::NavOverview | CmdKind::NavRoutines | CmdKind::NavHeatmap | CmdKind::NavSettings => "GO"@,
            CmdKind::Routine => "ROUTINE"@,
            CmdKind::ActionRefresh | CmdKind::ActionStop | CmdKind::ActionToggleTheme => "ACTION"@,
        },
{
    match kind {
        CmdKind::NavOverview | CmdKind::NavRoutines | CmdKind::NavHeatmap | CmdKind::NavSettings => "GO",
        CmdKind::Routine => "ROUTINE",
        CmdKind::ActionRefresh | CmdKind::ActionStop | CmdKind::ActionToggleTheme => "ACTION",
    }
}

// ─── Fuzzy scoring ──────────────────────────────────────────────────────────

/// First index at or after `cursor` where `hay` holds `c`.
pub open spec fn find_from(hay: Seq<char>, c: char, cursor: int) -> Option<int>
    decreases hay.len() - cursor,
{
    if cursor < 0 || cursor >= hay.len() {
        None
    } else if hay[cursor] == c {
        Some(cursor)
    } else {
        find_from(hay, c, cursor + 1)
    }
}

/// Points for a query character matched at `pos`: 1, plus 10 at the start of the
/// text or 6 right after a non-alphanumeric character, plus 8 when it directly
/// follows the previous match.
pub open spec fn hit_score(hay: Seq<char>, pos: int, prev: Option<int>) -> int {
    1 + (if pos == 0 {
        10int
    } else if !unicode_alphanumeric(hay[pos - 1]) {
        6int
    } else {
        0int
    }) + (if prev == Some(pos - 1) {
        8int
    } else {
        0int
    })
}

/// Matches `pins[k..]` greedily, each at its earliest position at or after `cursor`,
/// summing the points; `None` when some character finds no match.
pub open spec fn walk(hay: Seq<char>, pins: Seq<char>, k: int, cursor: int, prev: Option<int>) -> Option<int>
    decreases pins.len() - k,
{
    if k < 0 || k >= pins.len() {
        Some(0)
    } else {
        match find_from(hay, pins[k], cursor) {
            None => None,
            Some(pos) => match walk(hay, pins, k + 1, pos + 1, Some(pos)) {
                None => None,
                Some(rest) => Some(hit_score(hay, pos, prev) + rest),
            },
        }
    }
}

/// Rust's truncating division by 16.
pub open spec fn div16(x: int) -> int {
    if x >= 0 {
        x / 16
    } else {
        -((-x) / 16)
    }
}

/// The fuzzy score of `query` against `text`: a blank query scores 0; otherwise the
/// lowercased trimmed query must match the lowercased text as an ordered subsequence,
/// and the score is the sum of [`hit_score`]s minus a sixteenth of the text length
/// (all in `i32` arithmetic, which wraps only for texts of billions of characters).
pub open spec fn fuzzy(text: Seq<char>, query: Seq<char>) -> Option<i32> {
    let needle = trim(query);
    if needle.len() == 0 {
        Some(0)
    } else {
        let hay = unicode_lowercase(text);
        let pins = unicode_lowercase(needle);
        match walk(hay, pins, 0, 0, None) {
            Some(s) => Some((s - div16((hay.len() as i32) as int)) as i32),
            None => None,
        }
    }
}

spec fn add_opt(s: int, o: Option<int>) -> Option<int> {
    match o {
        Some(x) => Some(s + x),
        None => None,
    }
}

proof fn lemma_walk_bounds(hay: Seq<char>, pins: Seq<char>, k: int, cursor: int, prev: Option<int>)
    requires
        0 <= k <= pins.len(),
    ensures
        walk(hay, pins, k, cursor, prev) matches Some(s) ==> 0 <= s <= 25 * (pins.len() - k),
    decreases pins.len() - k,
{
    if k < pins.len() {
        match find_from(hay, pins[k], cursor) {
            None => {},
            Some(pos) => {
                lemma_walk_bounds(hay, pins, k + 1, pos + 1, Some(pos));
            },
        }
    }
}

/// The score of matching `pins` in `hay`, both already lowercased: [`walk`] from the
/// start, in `i128` arithmetic (at most 25 points per character of `pins`).
pub fn score_walk(hay: &[char], pins: &[char]) -> (r: Option<i128>)
    ensures
        r matches Some(x) ==> walk(hay@, pins@, 0, 0, None) == Some(x as int),
        r is None ==> walk(hay@, pins@, 0, 0, None) is None,
        r matches Some(x) ==> 0 <= x <= 25 * pins@.len(),
{
    let n = hay.len();
    let m = pins.len();
    let mut score: i128 = 0;
    let mut cursor: usize = 0;
    let mut prev: Option<usize> = None;
    let mut k: usize = 0;
    proof {
        lemma_walk_bounds(hay@, pins@, 0, 0, None);
    }
    while k < pins.len()
        invariant
            n == hay@.len(),
            k <= pins@.len(),
            cursor <= n,
            0 <= score <= 25 * k,
            m == pins@.len(),
            prev matches Some(pp) ==> pp < cursor,
            walk(hay@, pins@, 0, 0, None) == add_opt(
                score as int,
                walk(hay@, pins@, k as int, cursor as int, match prev {
                    Some(p) => Some(p as int),
                    None => None,
                }),
            ),
        decreases pins@.len() - k,
    {
        let ghost prev_i: Option<int> = match prev {
            Some(p) => Some(p as int),
            None => None,
        };
        let c = pins[k];
        let ghost start = cursor as int;
        let mut p = cursor;
        while p < n && hay[p] != c
            invariant
                cursor <= p <= n,
                n == hay@.len(),
                find_from(hay@, c, start) == find_from(hay@, c, p as int),
            decreases n - p,
        {
            p = p + 1;
        }
        if p == n {
            proof {
                assert(find_from(hay@, c, p as int) is None);
            }
            return None;
        }
        proof {
            assert(find_from(hay@, c, start) == Some(p as int));
        }
        let mut bonus: i128 = 1;
        if p == 0 {
            bonus = bonus + 10;
        } else if !is_alphanumeric(hay[p - 1]) {
            bonus = bonus + 6;
        }
        match prev {
            Some(pp) => {
                if p == pp + 1 {
                    bonus = bonus + 8;
                }
            },
            None => {},
        }
        proof {
            assert(bonus == hit_score(hay@, p as int, prev_i));
        }
        score = score + bonus;
        cursor = p + 1;
        prev = Some(p);
        k = k + 1;
    }
    Some(score)
}

/// Score how well `query` fuzzy-matches `text` (see [`fuzzy`]): case-insensitive,
/// `query` must appear as an ordered subsequence of `text`; `None` when it does not;
/// a blank query matches with a neutral score of 0.
pub fn fuzzy_score(text: &str, query: &str) -> (r: Option<i32>)
    ensures
        r == fuzzy(text@, query@),
{
    let q = chars_of(query);
    let needle = trimmed(q.as_slice());
    if needle.len() == 0 {
        return Some(0);
    }
    let hay = lowercase_chars(text);
    let needle_text = string_of(needle.as_slice());
    let pins = lowercase_chars(needle_text.as_str());
    match score_walk(hay.as_slice(), pins.as_slice()) {
        Some(total) => {
            let pl = pins.len();
            assert(total <= 25 * (usize::MAX as int)) by {
                assert(pl == pins@.len());
            }
            let len32: i32 = #[verifier::truncate] (hay.len() as i32);
            let pen: i128 = if len32 >= 0 {
                (len32 / 16) as i128
            } else {
                -(((-(len32 as i128)) / 16))
            };
            proof {
                assert(pen == div16(len32 as int));
            }
            let res: i32 = #[verifier::truncate] ((total - pen) as i32);
            Some(res)
        },
        None => None,
    }
}

// ─── Ranking ────────────────────────────────────────────────────────────────

/// A command's keyword score: its fuzzy score less 4 (wrapping in `i32`).
pub open spec fn alias_score(c: Command, query: Seq<char>) -> Option<i32> {
    match fuzzy(c.keywords@, query) {
        Some(raw) => Some((raw - 4) as i32),
        None => None,
    }
}

/// A command's score: the better of its title score and its keyword score; `None`
/// when neither matches.
pub open spec fn command_rank_score(c: Command, query: Seq<char>) -> Option<i32> {
    match (fuzzy(c.title@, query), alias_score(c, query)) {
        (Some(l), Some(r)) => Some(if l >= r { l } else { r }),
        (Some(l), None) => Some(l),
        (None, r) => r,
    }
}

/// Best fuzzy score for a command against `query`.
pub fn command_score(command: &Command, query: &str) -> (r: Option<i32>)
    ensures
        r == command_rank_score(*command, query@),
{
    let title = fuzzy_score(command.title.as_str(), query);
    let alias = match fuzzy_score(command.keywords.as_str(), query) {
        Some(raw) => {
            let a: i32 = #[verifier::truncate] (((raw as i64) - 4) as i32);
            Some(a)
        },
        None => None,
    };
    match (title, alias) {
        (Some(left), Some(right)) => Some(if left >= right { left } else { right }),
        (Some(left), None) => Some(left),
        (None, right) => right,
    }
}

/// Indices of the first `n` commands that match `query`, in input order.
pub open spec fn matching(cmds: Seq<Command>, query: Seq<char>, n: int) -> Seq<usize>
    decreases n,
{
    if n <= 0 {
        seq![]
    } else {
        matching(cmds, query, n - 1) + if command_rank_score(cmds[n - 1], query) is Some {
            seq![(n - 1) as usize]
        } else {
            seq![]
        }
    }
}

/// Command `a` ranks no later than command `b`: its score is at least `b`'s.
pub open spec fn rank_le(cmds: Seq<Command>, query: Seq<char>, a: usize, b: usize) -> bool {
    match (command_rank_score(cmds[a as int], query), command_rank_score(cmds[b as int], query)) {
        (Some(x), Some(y)) => x >= y,
        _ => true,
    }
}

spec fn rank_key_ok(cmds: Seq<Command>, query: Seq<char>, idx: usize, key: Rev<i64>) -> bool {
    command_rank_score(cmds[idx as int], query) matches Some(s) && key.inner == s as i64
}

/// Indices of `commands` that match `query`, best score first; ties keep input order,
/// so a blank query lists every command in order.
pub fn rank(commands: &[Command], query: &str) -> (r: Vec<usize>)
    ensures
        is_stable_sort_by(
            r@,
            matching(commands@, query@, commands@.len() as int),
            |a: usize, b: usize| rank_le(commands@, query@, a, b),
        ),
{
    let mut idxs: Vec<usize> = Vec::new();
    let mut keys: Vec<Rev<i64>> = Vec::new();
    let mut i: usize = 0;
    while i < commands.len()
        invariant
            i <= commands@.len(),
            idxs@ == matching(commands@, query@, i as int),
            keys@.len() == idxs@.len(),
            forall|k: int| 0 <= k < idxs@.len() ==> (#[trigger] idxs@[k]) < i,
            forall|k: int| 0 <= k < idxs@.len() ==> rank_key_ok(commands@, query@, idxs@[k], #[trigger] keys@[k]),
        decreases commands@.len() - i,
    {
        match command_score(&commands[i], query) {
            Some(score) => {
                let ghost oi = idxs@;
                let ghost ok = keys@;
                idxs.push(i);
                keys.push(Rev { inner: score as i64 });
                proof {
                    assert forall|k: int| 0 <= k < idxs@.len() implies rank_key_ok(commands@, query@, idxs@[k], #[trigger] keys@[k]) by {
                        if k < oi.len() {
                            assert(idxs@[k] == oi[k]);
                            assert(keys@[k] == ok[k]);
                        }
                    }
                }
            },
            None => {},
        }
        proof {
            assert(idxs@ =~= matching(commands@, query@, i + 1));
        }
        i = i + 1;
    }
    let ghost inp = idxs@;
    let ghost ks = keys@;
    let perm = stable_sort(&mut idxs, &mut keys);
    proof {
        let le = |a: usize, b: usize| rank_le(commands@, query@, a, b);
        assert forall|a: int, b: int| 0 <= a < inp.len() && 0 <= b < inp.len() implies (#[trigger] ks[a]).key_le(
            #[trigger] ks[b],
        ) == le(inp[a]@, inp[b]@) by {}
        lemma_sorted_views(idxs@, inp, ks, perm@, le);
        assert(idxs@.map_values(|x: usize| x@) =~= idxs@);
        assert(inp.map_values(|x: usize| x@) =~= inp);
    }
    idxs
}

// ─── Building commands ──────────────────────────────────────────────────────

/// The human schedule description when present and non-empty, else the raw expression
/// when not blank, else a dash.
pub open spec fn schedule_label_text(human: Option<Seq<char>>, raw: Seq<char>) -> Seq<char> {
    match human {
        Some(t) if t.len() > 0 => t,
        _ => if !is_blank(raw) {
            raw
        } else {
            "—"@
        },
    }
}

/// The schedule text of a command subtitle.
pub fn schedule_label(human: &Option<String>, raw: &str) -> (r: String)
    ensures
        r@ == schedule_label_text(opt_text(*human), raw@),
{
    match human {
        Some(text) => {
            if !text.as_str().is_empty() {
                return text.clone();
            }
        },
        None => {},
    }
    let raw_chars = chars_of(raw);
    if !blank(raw_chars.as_slice()) {
        owned(raw)
    } else {
        owned("—")
    }
}

/// The status tags shown after a routine's schedule in its subtitle: disabled or snoozed,
/// and open flags. An unregistered agent adds no tag: the subtitle stays the bare schedule
/// label.
pub open spec fn status_tags(r: RoutineView) -> Seq<Seq<char>> {
    (if !r.enabled {
        seq!["DISABLED"@]
    } else if r.skip_runs matches Some(n) && n > 0 {
        seq!["SNOOZED"@]
    } else {
        seq![]
    }) + (if r.flag_count > 0 {
        seq!["FLAGS"@]
    } else {
        seq![]
    })
}

/// A routine command's subtitle: its schedule label, then " — " and its comma-separated
/// status tags when it has any.
pub open spec fn subtitle_text(r: RoutineView) -> Seq<char> {
    let sched = schedule_label_text(r.schedule_description, r.schedule);
    let tags = status_tags(r);
    if tags.len() == 0 {
        sched
    } else {
        sched + " — "@ + join_with(tags, ", "@)
    }
}

/// Subtitle for a routine command: schedule label, suffixed with status tags so health
/// issues are visible in search results.
pub fn routine_subtitle(routine: &Routine) -> (r: String)
    ensures
        r@ == subtitle_text(routine@),
{
    let sched = schedule_label(&routine.schedule_description, routine.schedule.as_str());
    let mut tags: Vec<String> = Vec::new();
    if !routine.enabled {
        tags.push(owned("DISABLED"));
    } else if match routine.skip_runs {
        Some(n) => n > 0,
        None => false,
    } {
        tags.push(owned("SNOOZED"));
    }
    if routine.flag_count > 0 {
        tags.push(owned("FLAGS"));
    }
    proof {
        assert(tags.deep_view() =~= status_tags(routine@));
    }
    if tags.len() == 0 {
        sched
    } else {
        let s = chars_of(sched.as_str());
        let dash = chars_of(" — ");
        let joined = join_strings(&tags, ", ");
        let head = concat(s.as_slice(), dash.as_slice());
        string_of(concat(head.as_slice(), joined.as_slice()).as_slice())
    }
}

/// The search keywords of a routine command: id, agent, schedule, tags and the word
/// "routine", space separated.
pub open spec fn keywords_text(r: RoutineView) -> Seq<char> {
    r.id + " "@ + r.agent + " "@ + r.schedule + " "@ + join_with(r.tags, " "@) + " routine"@
}

fn routine_keywords(routine: &Routine) -> (r: String)
    ensures
        r@ == keywords_text(routine@),
{
    let sp = chars_of(" ");
    let id = chars_of(routine.id.as_str());
    let agent = chars_of(routine.agent.as_str());
    let sched = chars_of(routine.schedule.as_str());
    let tags = join_strings(&routine.tags, " ");
    let tail = chars_of(" routine");
    let mut out = concat(id.as_slice(), sp.as_slice());
    out = concat(out.as_slice(), agent.as_slice());
    out = concat(out.as_slice(), sp.as_slice());
    out = concat(out.as_slice(), sched.as_slice());
    out = concat(out.as_slice(), sp.as_slice());
    out = concat(out.as_slice(), tags.as_slice());
    out = concat(out.as_slice(), tail.as_slice());
    string_of(out.as_slice())
}

/// The fixed commands, in palette order: the pages, then the actions.
pub open spec fn base_command(i: int) -> (CmdKind, Seq<char>, Seq<char>, Seq<char>) {
    if i == 0 {
        (CmdKind::NavOverview, "Overview"@, "Fleet summary & upcoming runs"@, "home dashboard kpi summary landing"@)
    } else if i == 1 {
        (CmdKind::NavRoutines, "Routines"@, "Manage agent-driven routines"@, "agents automation"@)
    } else if i == 2 {
        (CmdKind::NavHeatmap, "Heatmap"@, "7-day × 24-hour fire-density grid"@, "schedule density grid busy collisions calendar"@)
    } else if i == 3 {
        (CmdKind::ActionRefresh, "Refresh"@, "Re-poll server health"@, "reload health status action"@)
    } else if i == 4 {
        (CmdKind::ActionStop, "Stop Server"@, "Shut the moadim server down"@, "shutdown halt kill quit action"@)
    } else {
        (CmdKind::ActionToggleTheme, "Toggle Theme"@, "Switch between dark and light mode"@, "theme light dark mode toggle appearance action"@)
    }
}

/// Number of fixed commands ahead of the routines.
pub const BASE_COMMANDS: usize = 6;

fn fixed(kind: CmdKind, title: &str, subtitle: &str, keywords: &str) -> (r: Command)
    ensures
        r.kind == kind,
        r.title@ == title@,
        r.subtitle@ == subtitle@,
        r.keywords@ == keywords@,
{
    Command { kind, title: owned(title), subtitle: owned(subtitle), keywords: owned(keywords) }
}

/// The full command list: the pages and actions first, then one entry per routine.
pub fn build_commands(routines: &[Routine]) -> (r: Vec<Command>)
    ensures
        r@.len() == BASE_COMMANDS + routines@.len(),
        forall|i: int|
            0 <= i < BASE_COMMANDS ==> {
                let b = base_command(i);
                &&& (#[trigger] r@[i]).kind == b.0
                &&& r@[i].title@ == b.1
                &&& r@[i].subtitle@ == b.2
                &&& r@[i].keywords@ == b.3
            },
        forall|i: int|
            0 <= i < routines@.len() ==> {
                let c = #[trigger] r@[BASE_COMMANDS + i];
                &&& c.kind == CmdKind::Routine
                &&& c.title@ == routines@[i].title@
                &&& c.subtitle@ == subtitle_text(routines@[i]@)
                &&& c.keywords@ == keywords_text(routines@[i]@)
            },
{
    let mut commands: Vec<Command> = Vec::new();
    commands.push(fixed(CmdKind::NavOverview, "Overview", "Fleet summary & upcoming runs", "home dashboard kpi summary landing"));
    commands.push(fixed(CmdKind::NavRoutines, "Routines", "Manage agent-driven routines", "agents automation"));
    commands.push(fixed(CmdKind::NavHeatmap, "Heatmap", "7-day × 24-hour fire-density grid", "schedule density grid busy collisions calendar"));
    commands.push(fixed(CmdKind::ActionRefresh, "Refresh", "Re-poll server health", "reload health status action"));
    commands.push(fixed(CmdKind::ActionStop, "Stop Server", "Shut the moadim server down", "shutdown halt kill quit action"));
    commands.push(fixed(CmdKind::ActionToggleTheme, "Toggle Theme", "Switch between dark and light mode", "theme light dark mode toggle appearance action"));
    let mut i: usize = 0;
    while i < routines.len()
        invariant
            i <= routines@.len(),
            commands@.len() == BASE_COMMANDS + i,
            forall|k: int|
                0 <= k < BASE_COMMANDS ==> {
                    let b = base_command(k);
                    &&& (#[trigger] commands@[k]).kind == b.0
                    &&& commands@[k].title@ == b.1
                    &&& commands@[k].subtitle@ == b.2
                    &&& commands@[k].keywords@ == b.3
                },
            forall|k: int|
                0 <= k < i ==> {
                    let c = #[trigger] commands@[BASE_COMMANDS + k];
                    &&& c.kind == CmdKind::Routine
                    &&& c.title@ == routines@[k].title@
                    &&& c.subtitle@ == subtitle_text(routines@[k]@)
                    &&& c.keywords@ == keywords_text(routines@[k]@)
                },
        decreases routines@.len() - i,
    {
        let routine = &routines[i];
        let c = Command {
            kind: CmdKind::Routine,
            title: routine.title.clone(),
            subtitle: routine_subtitle(routine),
            keywords: routine_keywords(routine),
        };
        let ghost before = commands@;
        commands.push(c);
        proof {
            assert forall|k: int| 0 <= k < BASE_COMMANDS implies {
                let b = base_command(k);
                &&& (#[trigger] commands@[k]).kind == b.0
                &&& commands@[k].title@ == b.1
                &&& commands@[k].subtitle@ == b.2
                &&& commands@[k].keywords@ == b.3
            } by {
                assert(commands@[k] == before[k]);
            }
            assert forall|k: int| 0 <= k < i + 1 implies {
                let c = #[trigger] commands@[BASE_COMMANDS + k];
                &&& c.kind == CmdKind::Routine
                &&& c.title@ == routines@[k].title@
                &&& c.subtitle@ == subtitle_text(routines@[k]@)
                &&& c.keywords@ == keywords_text(routines@[k]@)
            } by {
                if k < i {
                    assert(commands@[BASE_COMMANDS + k] == before[BASE_COMMANDS + k]);
                }
            }
        }
        i = i + 1;
    }
    commands
}

// ─── Selection ──────────────────────────────────────────────────────────────

/// `selected` clamped to a valid row of a `len`-row list: 0 when empty, never past the
/// last row.
pub fn clamp_selection(selected: usize, len: usize) -> (r: usize)
    ensures
        len == 0 ==> r == 0,
        len > 0 ==> r == if selected < len { selected } else { (len - 1) as usize },
{
    if len == 0 {
        0
    } else if selected < len - 1 {
        selected
    } else {
        len - 1
    }
}

/// Selection after ↓: one row further, never past the last row, 0 when empty.
pub fn next_index(selected: usize, len: usize) -> (r: usize)
    ensures
        len == 0 ==> r == 0,
        len > 0 ==> r == if selected + 1 < len { selected + 1 } else { len - 1 },
{
    if len == 0 {
        0
    } else if selected < len - 1 {
        selected + 1
    } else {
        len - 1
    }
}

/// Selection after ↑: one row back, stopping at the first row.
pub fn prev_index(selected: usize) -> (r: usize)
    ensures
        r == if selected > 0 { selected - 1 } else { 0 },
{
    selected.saturating_sub(1)
}

/// Selection after End: the last row, or 0 when empty.
pub fn last_index(len: usize) -> (r: usize)
    ensures
        r == if len > 0 { len - 1 } else { 0 },
{
    len.saturating_sub(1)
}

// ─── Laws ───────────────────────────────────────────────────────────────────

/// A query that trims to nothing matches any text with the neutral score 0.
pub proof fn lemma_blank_query_neutral(text: Seq<char>, query: Seq<char>)
    requires
        trim(query).len() == 0,
    ensures
        fuzzy(text, query) == Some(0i32),
{
}

/// Scores see the text and the query only through their lowercase forms: case is ignored.
pub proof fn lemma_fuzzy_ignores_case(text: Seq<char>, text2: Seq<char>, query: Seq<char>, query2: Seq<char>)
    requires
        unicode_lowercase(text) == unicode_lowercase(text2),
        trim(query).len() == 0 <==> trim(query2).len() == 0,
        unicode_lowercase(trim(query)) == unicode_lowercase(trim(query2)),
    ensures
        fuzzy(text, query) == fuzzy(text2, query2),
{
}

/// `idx` places `pins[k..]` in `hay` in order, at positions no earlier than `cursor`.
pub open spec fn placed_in_order(hay: Seq<char>, pins: Seq<char>, k: int, cursor: int, idx: Seq<int>) -> bool {
    &&& idx.len() == pins.len() - k
    &&& forall|j: int| 0 <= j < idx.len() ==> cursor <= #[trigger] idx[j] < hay.len() && hay[idx[j]] == pins[k + j]
    &&& forall|a: int, b: int| 0 <= a < b < idx.len() ==> #[trigger] idx[a] < #[trigger] idx[b]
}

/// The characters of `pins` occur in `hay` in the same order, not necessarily together.
pub open spec fn occurs_in_order(pins: Seq<char>, hay: Seq<char>) -> bool {
    exists|idx: Seq<int>| placed_in_order(hay, pins, 0, 0, idx)
}

proof fn lemma_find_from_hit(hay: Seq<char>, c: char, cursor: int)
    ensures
        find_from(hay, c, cursor) matches Some(p) ==> cursor <= p < hay.len() && hay[p] == c,
    decreases hay.len() - cursor,
{
    if 0 <= cursor < hay.len() && hay[cursor] != c {
        lemma_find_from_hit(hay, c, cursor + 1);
    }
}

proof fn lemma_find_from_earliest(hay: Seq<char>, c: char, cursor: int, j: int)
    requires
        0 <= cursor <= j < hay.len(),
        hay[j] == c,
    ensures
        find_from(hay, c, cursor) matches Some(p) && p <= j,
    decreases j - cursor,
{
    if hay[cursor] != c {
        lemma_find_from_earliest(hay, c, cursor + 1, j);
    }
}

proof fn lemma_walk_places(hay: Seq<char>, pins: Seq<char>, k: int, cursor: int, prev: Option<int>)
    requires
        0 <= k <= pins.len(),
        walk(hay, pins, k, cursor, prev) is Some,
    ensures
        exists|idx: Seq<int>| placed_in_order(hay, pins, k, cursor, idx),
    decreases pins.len() - k,
{
    if k == pins.len() {
        assert(placed_in_order(hay, pins, k, cursor, Seq::<int>::empty()));
    } else {
        let pos = find_from(hay, pins[k], cursor)->0;
        lemma_find_from_hit(hay, pins[k], cursor);
        lemma_walk_places(hay, pins, k + 1, pos + 1, Some(pos));
        let (k1, c1) = (k + 1, pos + 1);
        let rest = choose|idx: Seq<int>| #[trigger] placed_in_order(hay, pins, k1, c1, idx);
        let idx = seq![pos] + rest;
        assert forall|j: int| 0 <= j < idx.len() implies cursor <= #[trigger] idx[j] < hay.len() && hay[idx[j]]
            == pins[k + j] by {
            if j > 0 {
                assert(idx[j] == rest[j - 1]);
            }
        }
        assert forall|a: int, b: int| 0 <= a < b < idx.len() implies #[trigger] idx[a] < #[trigger] idx[b] by {
            assert(idx[b] == rest[b - 1]);
            if a > 0 {
                assert(idx[a] == rest[a - 1]);
            }
        }
        assert(placed_in_order(hay, pins, k, cursor, idx));
    }
}

proof fn lemma_placed_walks(hay: Seq<char>, pins: Seq<char>, k: int, cursor: int, prev: Option<int>, idx: Seq<int>)
    requires
        0 <= k <= pins.len(),
        0 <= cursor,
        placed_in_order(hay, pins, k, cursor, idx),
    ensures
        walk(hay, pins, k, cursor, prev) is Some,
    decreases pins.len() - k,
{
    if k < pins.len() {
        assert(cursor <= idx[0] < hay.len() && hay[idx[0]] == pins[k + 0]);
        lemma_find_from_earliest(hay, pins[k], cursor, idx[0]);
        let pos = find_from(hay, pins[k], cursor)->0;
        lemma_find_from_hit(hay, pins[k], cursor);
        let rest = idx.drop_first();
        assert forall|j: int| 0 <= j < rest.len() implies pos + 1 <= #[trigger] rest[j] < hay.len() && hay[rest[j]]
            == pins[k + 1 + j] by {
            assert(rest[j] == idx[j + 1]);
            assert(idx[0] < idx[j + 1]);
        }
        assert forall|a: int, b: int| 0 <= a < b < rest.len() implies #[trigger] rest[a] < #[trigger] rest[b] by {
            assert(rest[a] == idx[a + 1] && rest[b] == idx[b + 1]);
        }
        lemma_placed_walks(hay, pins, k + 1, pos + 1, Some(pos), rest);
    }
}

/// A query that does not trim to nothing matches a text exactly when the characters of
/// its lowercase form occur, in order, in the lowercase text.
pub proof fn lemma_fuzzy_matches_in_order(text: Seq<char>, query: Seq<char>)
    requires
        trim(query).len() > 0,
    ensures
        fuzzy(text, query) is Some <==> occurs_in_order(unicode_lowercase(trim(query)), unicode_lowercase(text)),
{
    let hay = unicode_lowercase(text);
    let pins = unicode_lowercase(trim(query));
    if walk(hay, pins, 0, 0, None) is Some {
        lemma_walk_places(hay, pins, 0, 0, None);
    }
    if occurs_in_order(pins, hay) {
        let idx = choose|idx: Seq<int>| placed_in_order(hay, pins, 0, 0, idx);
        lemma_placed_walks(hay, pins, 0, 0, None, idx);
    }
}

proof fn lemma_matching_members(cmds: Seq<Command>, query: Seq<char>, n: int)
    requires
        0 <= n <= cmds.len(),
        cmds.len() <= usize::MAX,
    ensures
        forall|k: int|
            0 <= k < matching(cmds, query, n).len() ==> (#[trigger] matching(cmds, query, n)[k]) < n
                && command_rank_score(cmds[matching(cmds, query, n)[k] as int], query) is Some,
        forall|i: int|
            0 <= i < n && command_rank_score(#[trigger] cmds[i], query) is Some ==> matching(cmds, query, n).contains(
                i as usize,
            ),
    decreases n,
{
    if n > 0 {
        lemma_matching_members(cmds, query, n - 1);
        let prev = matching(cmds, query, n - 1);
        let cur = matching(cmds, query, n);
        assert forall|k: int| 0 <= k < cur.len() implies (#[trigger] cur[k]) < n && command_rank_score(
            cmds[cur[k] as int],
            query,
        ) is Some by {
            if k < prev.len() {
                assert(cur[k] == prev[k]);
            } else {
                assert(command_rank_score(cmds[n - 1], query) is Some);
                assert(cur[k] == (n - 1) as usize);
            }
        }
        assert forall|i: int| 0 <= i < n && command_rank_score(#[trigger] cmds[i], query) is Some implies cur.contains(
            i as usize,
        ) by {
            if i < n - 1 {
                let k = choose|k: int| 0 <= k < prev.len() && prev[k] == i as usize;
                assert(cur[k] == prev[k]);
            } else {
                assert(cur[prev.len() as int] == (n - 1) as usize);
            }
        }
    }
}

/// The ranking lists exactly the commands that match the query, each once.
pub proof fn lemma_ranking_lists_matches(cmds: Seq<Command>, query: Seq<char>, out: Seq<usize>)
    requires
        cmds.len() <= usize::MAX,
        is_stable_sort_by(
            out,
            matching(cmds, query, cmds.len() as int),
            |a: usize, b: usize| rank_le(cmds, query, a, b),
        ),
    ensures
        forall|k: int|
            0 <= k < out.len() ==> (#[trigger] out[k]) < cmds.len() && command_rank_score(cmds[out[k] as int], query) is Some,
        forall|i: int| 0 <= i < cmds.len() && command_rank_score(#[trigger] cmds[i], query) is Some ==> out.contains(i as usize),
{
    let inp = matching(cmds, query, cmds.len() as int);
    let le = |a: usize, b: usize| rank_le(cmds, query, a, b);
    lemma_matching_members(cmds, query, cmds.len() as int);
    let perm = choose|perm: Seq<int>|
        #![trigger is_perm(perm, inp.len() as int)]
        {
            &&& is_perm(perm, inp.len() as int)
            &&& permuted(out, inp, perm)
            &&& forall|a: int, b: int|
                0 <= a < b < perm.len() ==> le(inp[#[trigger] perm[a]], inp[#[trigger] perm[b]])
                    && (le(inp[perm[b]], inp[perm[a]]) ==> perm[a] < perm[b])
        };
    assert forall|k: int| 0 <= k < out.len() implies (#[trigger] out[k]) < cmds.len() && command_rank_score(
        cmds[out[k] as int],
        query,
    ) is Some by {
        assert(out[k] == inp[perm[k]]);
        assert(0 <= perm[k] < inp.len());
    }
    assert forall|i: int| 0 <= i < cmds.len() && command_rank_score(#[trigger] cmds[i], query) is Some implies out.contains(
        i as usize,
    ) by {
        let m = choose|m: int| 0 <= m < inp.len() && inp[m] == i as usize;
        lemma_perm_onto(perm, inp.len() as int, m);
        let k = choose|k: int| 0 <= k < inp.len() && perm[k] == m;
        assert(out[k] == inp[m]);
    }
}

/// With a query that trims to nothing, every command matches with the same score, so the
/// ranking lists all commands in their given order.
pub proof fn lemma_blank_query_keeps_order(cmds: Seq<Command>, query: Seq<char>, out: Seq<usize>)
    requires
        cmds.len() <= usize::MAX,
        trim(query).len() == 0,
        is_stable_sort_by(
            out,
            matching(cmds, query, cmds.len() as int),
            |a: usize, b: usize| rank_le(cmds, query, a, b),
        ),
    ensures
        out == Seq::new(cmds.len(), |i: int| i as usize),
{
    let n = cmds.len() as int;
    let le = |a: usize, b: usize| rank_le(cmds, query, a, b);
    assert forall|i: int| 0 <= i < n implies command_rank_score(#[trigger] cmds[i], query) == Some(0i32) by {
        assert(fuzzy(cmds[i].title@, query) == Some(0i32));
        assert(fuzzy(cmds[i].keywords@, query) == Some(0i32));
    }
    lemma_matching_all(cmds, query, n);
    let inp = matching(cmds, query, n);
    assert forall|a: int, b: int| 0 <= a < inp.len() && 0 <= b < inp.len() implies #[trigger] le(inp[a], inp[b]) by {
        assert(command_rank_score(cmds[a], query) == Some(0i32));
        assert(command_rank_score(cmds[b], query) == Some(0i32));
    }
    lemma_stable_sort_of_ties(out, inp, le);
}

proof fn lemma_matching_all(cmds: Seq<Command>, query: Seq<char>, n: int)
    requires
        0 <= n <= cmds.len(),
        cmds.len() <= usize::MAX,
        forall|i: int| 0 <= i < cmds.len() ==> command_rank_score(#[trigger] cmds[i], query) is Some,
    ensures
        matching(cmds, query, n) == Seq::new(n as nat, |i: int| i as usize),
    decreases n,
{
    if n > 0 {
        lemma_matching_all(cmds, query, n - 1);
        assert(command_rank_score(cmds[n - 1], query) is Some);
        assert(matching(cmds, query, n) =~= Seq::new(n as nat, |i: int| i as usize));
    } else {
        assert(matching(cmds, query, n) =~= Seq::new(n as nat, |i: int| i as usize));
    }
}

/// A command scores the better of its title's fuzzy score and its keywords' fuzzy score
/// less 4: never below either that matches, always one of them, and no score exactly when
/// neither matches. A title hit thus never scores below the title's own score.
pub proof fn lemma_command_score_is_best(c: Command, query: Seq<char>)
    ensures
        fuzzy(c.title@, query) matches Some(t) ==> command_rank_score(c, query) matches Some(s) && s >= t,
        fuzzy(c.keywords@, query) matches Some(k) ==> command_rank_score(c, query) matches Some(s) && s >= (k
            - 4) as i32,
        command_rank_score(c, query) matches Some(s) ==> fuzzy(c.title@, query) == Some(s) || (fuzzy(
            c.keywords@,
            query,
        ) matches Some(k) && s == (k - 4) as i32),
        command_rank_score(c, query) is None <==> (fuzzy(c.title@, query) is None && fuzzy(c.keywords@, query) is None),
{
}

} // verus!


