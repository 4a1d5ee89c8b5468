//! Cron schedules: normalizing an expression the way the server does, parsing
//! it with `croner`, describing it, finding its next fire, and the relative
//! "N ago" time labels.

use chrono::TimeZone;
use vstd::prelude::*;
use crate::text::{
    blank, chars_of, concat, decimal, decimal_chars, is_blank, is_whitespace, lemma_trim_start_shape, owned, slice_chars,
    lemma_trim_idempotent, string_of, trim, trim_end, trim_start, trimmed, unicode_whitespace,
};

verus! {

// ─── Words ───────────────────────────────────────────────────────────────────

/// Length of the leading run of non-whitespace characters of `s`.
pub open spec fn word_len(s: Seq<char>) -> int
    decreases s.len(),
{
    if s.len() == 0 || unicode_whitespace(s[0]) {
        0
    } else {
        1 + word_len(s.drop_first())
    }
}

/// [`word_len`] lies within `s`, and is at least one when `s` starts with a non-whitespace
/// character.
pub proof fn lemma_word_len_bounds(s: Seq<char>)
    ensures
        0 <= word_len(s) <= s.len(),
        s.len() > 0 && !unicode_whitespace(s[0]) ==> word_len(s) >= 1,
    decreases s.len(),
{
    if s.len() > 0 && !unicode_whitespace(s[0]) {
        lemma_word_len_bounds(s.drop_first());
    }
}

/// The whitespace-separated words of `s`, in order (what `str::split_whitespace` yields).
pub open spec fn words_of(s: Seq<char>) -> Seq<Seq<char>>
    decreases s.len(),
{
    let t = trim_start(s);
    if t.len() == 0 {
        seq![]
    } else {
        let k = word_len(t);
        proof {
            lemma_trim_start_shape(s);
            lemma_word_len_bounds(t);
        }
        seq![t.take(k)] + words_of(t.skip(k))
    }
}

/// The words of `ws` joined by single spaces (`[&str]::join(" ")`).
pub open spec fn join_spaced(ws: Seq<Seq<char>>) -> Seq<char>
    decreases ws.len(),
{
    if ws.len() == 0 {
        seq![]
    } else if ws.len() == 1 {
        ws[0]
    } else {
        join_spaced(ws.drop_last()) + seq![' '] + ws.last()
    }
}

proof fn lemma_word_len_exact(s: Seq<char>, k: int)
    requires
        0 <= k <= s.len(),
        forall|i: int| 0 <= i < k ==> !unicode_whitespace(#[trigger] s[i]),
        k == s.len() || unicode_whitespace(s[k]),
    ensures
        word_len(s) == k,
    decreases k,
{
    if k > 0 {
        let t = s.drop_first();
        assert forall|i: int| 0 <= i < k - 1 implies !unicode_whitespace(#[trigger] t[i]) by {
            assert(t[i] == s[i + 1]);
        }
        if k < s.len() {
            assert(t[k - 1] == s[k]);
        }
        lemma_word_len_exact(t, k - 1);
    }
}

/// The whitespace-separated words of `s`.
pub fn split_words(s: &[char]) -> (r: Vec<Vec<char>>)
    ensures
        r@.map_values(|w: Vec<char>| w@) == words_of(s@),
{
    let n = s.len();
    let mut out: Vec<Vec<char>> = Vec::new();
    let mut pos: usize = 0;
    proof {
        assert(s@.skip(0) =~= s@);
    }
    loop
        invariant
            pos <= n,
            n == s@.len(),
            words_of(s@) =~= out@.map_values(|w: Vec<char>| w@) + words_of(s@.skip(pos as int)),
        ensures
            words_of(s@) =~= out@.map_values(|w: Vec<char>| w@),
        decreases n - pos,
    {
        let ghost rest = s@.skip(pos as int);
        let mut a = pos;
        while a < n && is_whitespace(s[a])
            invariant
                pos <= a <= n,
                n == s@.len(),
                forall|i: int| pos <= i < a ==> unicode_whitespace(#[trigger] s@[i]),
            decreases n - a,
        {
            a = a + 1;
        }
        proof {
            let k = a - pos;
            assert forall|i: int| 0 <= i < k implies unicode_whitespace(#[trigger] rest[i]) by {
                assert(rest[i] == s@[i + pos]);
            }
            if a < n {
                assert(rest[k] == s@[a as int]);
            }
            crate::text::lemma_trim_start_skip(rest, k);
            assert(rest.skip(k) =~= s@.skip(a as int));
        }
        if a == n {
            proof {
                assert(trim_start(rest).len() == 0);
                assert(words_of(rest) =~= Seq::<Seq<char>>::empty());
            }
            break;
        }
        let mut b = a;
        while b < n && !is_whitespace(s[b])
            invariant
                a <= b <= n,
                n == s@.len(),
                forall|i: int| a <= i < b ==> !unicode_whitespace(#[trigger] s@[i]),
            decreases n - b,
        {
            b = b + 1;
        }
        let word = slice_chars(s, a, b);
        proof {
            let t = s@.skip(a as int);
            assert forall|i: int| 0 <= i < b - a implies !unicode_whitespace(#[trigger] t[i]) by {
                assert(t[i] == s@[i + a]);
            }
            if b < n {
                assert(t[b - a] == s@[b as int]);
            }
            lemma_word_len_exact(t, b - a);
            assert(t.take(b - a) =~= word@);
            assert(t.skip(b - a) =~= s@.skip(b as int));
            assert(trim_start(rest) == t);
            assert(t.len() > 0);
        }
        let ghost before = out@;
        out.push(word);
        proof {
            assert(out@.map_values(|w: Vec<char>| w@) =~= before.map_values(|w: Vec<char>| w@).push(word@));
        }
        pos = b;
    }
    out
}

/// The words of `ws` joined by single spaces.
pub fn join_words(ws: &[Vec<char>]) -> (r: Vec<char>)
    ensures
        r@ == join_spaced(ws@.map_values(|w: Vec<char>| w@)),
{
    let mut out: Vec<char> = Vec::new();
    let mut i: usize = 0;
    while i < ws.len()
        invariant
            i <= ws@.len(),
            out@ == join_spaced(ws@.take(i as int).map_values(|w: Vec<char>| w@)),
        decreases ws@.len() - i,
    {
        let ghost prev = ws@.take(i as int).map_values(|w: Vec<char>| w@);
        if i > 0 {
            out.push(' ');
        }
        out = concat(out.as_slice(), ws[i].as_slice());
        proof {
            let next = ws@.take(i + 1).map_values(|w: Vec<char>| w@);
            assert(next.drop_last() =~= prev);
            assert(next.last() == ws@[i as int]@);
            if i == 0 {
                assert(out@ =~= ws@[0]@);
            }
        }
        i = i + 1;
    }
    proof {
        assert(ws@.take(ws@.len() as int) =~= ws@);
    }
    out
}

/// Text of at least one character, none of them whitespace.
pub open spec fn is_word(w: Seq<char>) -> bool {
    w.len() > 0 && forall|i: int| 0 <= i < w.len() ==> !unicode_whitespace(#[trigger] w[i])
}

/// A word followed by text that is empty or starts with whitespace: the word, then the
/// words of that text.
proof fn lemma_words_of_front(w: Seq<char>, rest: Seq<char>)
    requires
        is_word(w),
        rest.len() == 0 || unicode_whitespace(rest[0]),
    ensures
        words_of(w + rest) == seq![w] + words_of(rest),
{
    let s = w + rest;
    assert(s[0] == w[0]);
    assert(trim_start(s) == s);
    assert forall|i: int| 0 <= i < w.len() implies !unicode_whitespace(#[trigger] s[i]) by {
        assert(s[i] == w[i]);
    }
    if rest.len() > 0 {
        assert(s[w.len() as int] == rest[0]);
    }
    lemma_word_len_exact(s, w.len() as int);
    assert(s.take(w.len() as int) =~= w);
    assert(s.skip(w.len() as int) =~= rest);
}

/// A single word reads as that one word.
pub proof fn lemma_words_of_word(w: Seq<char>)
    requires
        is_word(w),
    ensures
        words_of(w) == seq![w],
{
    lemma_words_of_front(w, Seq::<char>::empty());
    assert(w + Seq::<char>::empty() =~= w);
    assert(words_of(Seq::<char>::empty()) =~= Seq::<Seq<char>>::empty());
    assert(seq![w] + Seq::<Seq<char>>::empty() =~= seq![w]);
}

/// Two words with a space between them read as those two words.
pub proof fn lemma_words_of_pair(a: Seq<char>, b: Seq<char>)
    requires
        is_word(a),
        is_word(b),
    ensures
        words_of(a + seq![' '] + b) == seq![a, b],
{
    let tail = seq![' '] + b;
    assert(tail[0] == ' ');
    lemma_words_of_front(a, tail);
    assert(a + seq![' '] + b =~= a + tail);
    assert(tail.drop_first() =~= b);
    assert(b[0] == b[0]);
    assert(trim_start(b) == b);
    assert(trim_start(tail) == b);
    lemma_words_of_word(b);
    assert(words_of(tail) == words_of(b));
    assert(seq![a] + seq![b] =~= seq![a, b]);
}

// ─── Normalization and parsing ──────────────────────────────────────────────

/// The expression handed to `croner` for `expr`: trimmed; a 7-field form
/// (`sec min hour dom month dow year`) reduced to its 5 middle fields, as the
/// server normalizes schedules; `@` nicknames passed through.
pub open spec fn normalize_schedule(expr: Seq<char>) -> Seq<char> {
    let t = trim(expr);
    if t.len() > 0 && t[0] == '@' {
        t
    } else {
        let w = words_of(t);
        if w.len() == 7 {
            join_spaced(w.subrange(1, 6))
        } else {
            t
        }
    }
}

/// Whether `croner` parses `expr` with its default parser (`Cron::from_str`).
pub uninterp spec fn cron_accepts(expr: Seq<char>) -> bool;

/// `croner`'s English description (`Cron::describe`) of the schedule parsed from `expr`.
pub uninterp spec fn cron_description(expr: Seq<char>) -> Seq<char>;

/// `<croner::Cron as FromStr>::from_str`: claims only that parsing succeeds exactly when
/// [`cron_accepts`] holds of the text.
#[verifier::external_body]
fn croner_parses(expr: &str) -> (r: bool)
    ensures
        r == cron_accepts(expr@),
{
    expr.parse::<croner::Cron>().is_ok()
}

/// `croner::Cron::describe` on the schedule parsed from `expr`: claims that the text is
/// [`cron_description`] of `expr`. The parse merely converts the argument; `requires`
/// keeps it on texts that parse.
#[verifier::external_body]
fn croner_describe(expr: &str) -> (r: String)
    requires
        cron_accepts(expr@),
    ensures
        r@ == cron_description(expr@),
{
    match expr.parse::<croner::Cron>() {
        Ok(cron) => cron.describe(),
        Err(_) => String::new(),
    }
}

/// `croner::Cron::find_next_occurrence` (exclusive) on the schedule parsed from `expr`,
/// starting at the local-time instant `after` (Unix seconds). Claims only that a found
/// occurrence lies strictly after `after`, as croner documents ("otherwise, it starts from
/// the next second"). Which instant comes back depends on the machine's time zone, and a
/// search may fail (`None`); neither is stated.
#[verifier::external_body]
fn croner_next_after(expr: &str, after: i64) -> (r: Option<i64>)
    requires
        cron_accepts(expr@),
    ensures
        r matches Some(t) ==> t > after,
{
    let cron = expr.parse::<croner::Cron>().ok()?;
    let start = chrono::Local.timestamp_opt(after, 0).single()?;
    cron.find_next_occurrence(&start, false).ok().map(|t| t.timestamp())
}

/// A cron schedule that `croner` accepts, held as its normalized expression.
pub struct CronSchedule {
    expr: String,
}

impl View for CronSchedule {
    type V = Seq<char>;

    closed spec fn view(&self) -> Seq<char> {
        self.expr@
    }
}

impl CronSchedule {
    #[verifier::type_invariant]
    closed spec fn accepted(self) -> bool {
        cron_accepts(self.expr@)
    }

    /// The normalized expression.
    pub fn expression(&self) -> (r: String)
        ensures
            r@ == self@,
    {
        self.expr.clone()
    }

    /// `croner`'s human description of this schedule.
    pub fn describe(&self) -> (r: String)
        ensures
            r@ == cron_description(self@),
    {
        proof {
            use_type_invariant(self);
        }
        croner_describe(self.expr.as_str())
    }

    /// The next fire strictly after `after` (Unix seconds, local time zone), or `None`
    /// when croner finds none.
    pub fn next_after(&self, after: i64) -> (r: Option<i64>)
        ensures
            r matches Some(t) ==> t > after,
    {
        proof {
            use_type_invariant(self);
        }
        croner_next_after(self.expr.as_str(), after)
    }
}

/// The normalized form of `expr` (see [`normalize_schedule`]).
pub fn normalize(expr: &str) -> (r: Vec<char>)
    ensures
        r@ == normalize_schedule(expr@),
{
    let all = chars_of(expr);
    let t = trimmed(all.as_slice());
    if t.len() > 0 && t[0] == '@' {
        return t;
    }
    let words = split_words(t.as_slice());
    if words.len() == 7 {
        let mut middle: Vec<Vec<char>> = Vec::new();
        let mut i: usize = 1;
        while i < 6
            invariant
                1 <= i <= 6,
                words@.len() == 7,
                middle@.map_values(|w: Vec<char>| w@) =~= words@.map_values(|w: Vec<char>| w@).subrange(1, i as int),
            decreases 6 - i,
        {
            let w = slice_chars(words[i].as_slice(), 0, words[i].len());
            proof {
                assert(w@ =~= words@[i as int]@);
            }
            let ghost before = middle@;
            middle.push(w);
            proof {
                assert(middle@.map_values(|w: Vec<char>| w@) =~= before.map_values(|w: Vec<char>| w@).push(w@));
            }
            i = i + 1;
        }
        let r = join_words(middle.as_slice());
        proof {
            assert(middle@.map_values(|w: Vec<char>| w@) =~= words@.map_values(|w: Vec<char>| w@).subrange(1, 6));
        }
        r
    } else {
        t
    }
}

/// Parses a cron expression as the server does: blank input is no schedule; a 7-field
/// expression is reduced to 5 fields; the result must be one that `croner` accepts.
pub fn parse_cron(expr: &str) -> (r: Option<CronSchedule>)
    ensures
        r is Some <==> (!is_blank(expr@) && cron_accepts(normalize_schedule(expr@))),
        r matches Some(c) ==> c@ == normalize_schedule(expr@),
{
    let all = chars_of(expr);
    if blank(all.as_slice()) {
        return None;
    }
    let normalized = string_of(normalize(expr).as_slice());
    if croner_parses(normalized.as_str()) {
        Some(CronSchedule { expr: normalized })
    } else {
        None
    }
}

/// Whether `expr` is a schedule that parses (not blank, and `croner` accepts its
/// normalized form).
pub open spec fn schedule_valid(expr: Seq<char>) -> bool {
    !is_blank(expr) && cron_accepts(normalize_schedule(expr))
}

/// Live validity feedback for a cron input: `(is_valid, text)`, where the text is a
/// placeholder for blank input, an error for an expression that does not parse, and
/// `croner`'s description otherwise.
pub fn describe_cron_live(expr: &str) -> (r: (bool, String))
    ensures
        is_blank(expr@) ==> !r.0 && r.1@ == "— enter a cron expression —"@,
        !is_blank(expr@) && !cron_accepts(normalize_schedule(expr@)) ==> !r.0 && r.1@
            == "Invalid cron expression"@,
        r.0 <==> schedule_valid(expr@),
        r.0 ==> r.1@ == cron_description(normalize_schedule(expr@)),
{
    let all = chars_of(expr);
    if blank(all.as_slice()) {
        return (false, owned("— enter a cron expression —"));
    }
    match parse_cron(expr) {
        Some(cron) => (true, cron.describe()),
        None => (false, owned("Invalid cron expression")),
    }
}

/// The next fire of `schedule` strictly after `now` (Unix seconds, local time), or `None`
/// when the schedule does not parse or has no next fire.
pub fn next_fire_after(schedule: &str, now: i64) -> (r: Option<i64>)
    ensures
        r is Some ==> schedule_valid(schedule@),
        r matches Some(t) ==> t > now,
{
    match parse_cron(schedule) {
        Some(cron) => cron.next_after(now),
        None => None,
    }
}

/// A next fire `next` lands within `window` seconds of `now`.
pub open spec fn due_within(next: Option<i64>, now: i64, window: i64) -> bool {
    next matches Some(t) && t - now <= window
}

/// Whether the next fire `next` lands within `window` seconds of `now`.
pub fn is_due_within(next: Option<i64>, now: i64, window: i64) -> (r: bool)
    ensures
        r == due_within(next, now, window),
{
    match next {
        Some(t) => (t as i128) - (now as i128) <= (window as i128),
        None => false,
    }
}

/// Whether `schedule` next fires after `now` and within `window` seconds of it. The next
/// fire is looked up (see [`next_fire_after`]); whatever the lookup finds, the answer is
/// [`due_within`] of it.
pub fn fires_within(schedule: &str, now: i64, window: i64) -> (r: bool)
    ensures
        exists|next: Option<i64>|
            {
                &&& (next matches Some(t) ==> t > now && schedule_valid(schedule@))
                &&& r == due_within(next, now, window)
            },
        r ==> schedule_valid(schedule@),
        r ==> exists|t: i64| t > now && due_within(Some(t), now, window),
{
    let next = next_fire_after(schedule, now);
    let r = is_due_within(next, now, window);
    proof {
        assert((next matches Some(t) ==> t > now && schedule_valid(schedule@)) && r == due_within(next, now, window));
    }
    r
}

// ─── Relative time labels ───────────────────────────────────────────────────

/// `now - ts`, or 0 when `ts` lies in the future (`u64::saturating_sub`).
pub open spec fn elapsed(ts: u64, now: u64) -> nat {
    if now >= ts {
        (now - ts) as nat
    } else {
        0
    }
}

/// "just now" under a minute, then whole minutes, hours or days with a suffix.
pub open spec fn age_text(secs: nat, suffix: Seq<char>) -> Seq<char> {
    if secs < 60 {
        "just now"@
    } else if secs < 3600 {
        decimal(secs / 60) + "m"@ + suffix
    } else if secs < 86400 {
        decimal(secs / 3600) + "h"@ + suffix
    } else {
        decimal(secs / 86400) + "d"@ + suffix
    }
}

/// The relative label for a Unix timestamp `ts` seen at `now`: a dash for 0 (never),
/// else "just now", "Nm ago", "Nh ago" or "Nd ago".
pub open spec fn reltime_text(ts: u64, now: u64) -> Seq<char> {
    if ts == 0 {
        "—"@
    } else {
        age_text(elapsed(ts, now), " ago"@)
    }
}

/// `decimal(n) + unit + suffix`.
fn count_label(n: u64, unit: &str, suffix: &str) -> (r: Vec<char>)
    ensures
        r@ == decimal(n as nat) + unit@ + suffix@,
{
    let d = decimal_chars(n);
    let u = chars_of(unit);
    let s = chars_of(suffix);
    let du = concat(d.as_slice(), u.as_slice());
    concat(du.as_slice(), s.as_slice())
}

/// The age label of `secs` seconds (see [`age_text`]).
pub fn age_label(secs: u64, suffix: &str) -> (r: Vec<char>)
    ensures
        r@ == age_text(secs as nat, suffix@),
{
    if secs < 60 {
        chars_of("just now")
    } else if secs < 3_600 {
        count_label(secs / 60, "m", suffix)
    } else if secs < 86_400 {
        count_label(secs / 3_600, "h", suffix)
    } else {
        count_label(secs / 86_400, "d", suffix)
    }
}

/// Relative "time ago" label for the Unix timestamp `ts`, seen at `now`.
pub fn reltime(ts: u64, now: u64) -> (r: String)
    ensures
        r@ == reltime_text(ts, now),
{
    if ts == 0 {
        return owned("—");
    }
    let diff = now.saturating_sub(ts);
    let label = age_label(diff, " ago");
    string_of(label.as_slice())
}

// ─── Normalizing twice ──────────────────────────────────────────────────────

/// The leading run that [`word_len`] measures holds no whitespace.
proof fn lemma_word_len_run(s: Seq<char>)
    ensures
        forall|i: int| 0 <= i < word_len(s) ==> !unicode_whitespace(#[trigger] s[i]),
    decreases s.len(),
{
    if s.len() > 0 && !unicode_whitespace(s[0]) {
        let t = s.drop_first();
        lemma_word_len_run(t);
        lemma_word_len_bounds(s);
        assert forall|i: int| 0 <= i < word_len(s) implies !unicode_whitespace(#[trigger] s[i]) by {
            if i > 0 {
                assert(s[i] == t[i - 1]);
            }
        }
    }
}

/// Every piece that [`words_of`] yields is a word.
proof fn lemma_words_are_words(s: Seq<char>)
    ensures
        forall|i: int| 0 <= i < words_of(s).len() ==> is_word(#[trigger] words_of(s)[i]),
    decreases s.len(),
{
    let t = trim_start(s);
    lemma_trim_start_shape(s);
    if t.len() > 0 {
        let k = word_len(t);
        lemma_word_len_bounds(t);
        lemma_word_len_run(t);
        lemma_words_are_words(t.skip(k));
        let w = t.take(k);
        assert(is_word(w)) by {
            assert forall|i: int| 0 <= i < w.len() implies !unicode_whitespace(#[trigger] w[i]) by {
                assert(w[i] == t[i]);
            }
        }
        let ws = words_of(s);
        assert(ws == seq![w] + words_of(t.skip(k)));
        assert forall|i: int| 0 <= i < ws.len() implies is_word(#[trigger] ws[i]) by {
            if i > 0 {
                assert(ws[i] == words_of(t.skip(k))[i - 1]);
            }
        }
    }
}

/// Joining two or more words by spaces puts the first word, a space, then the rest joined.
proof fn lemma_join_spaced_front(ws: Seq<Seq<char>>)
    requires
        ws.len() >= 2,
    ensures
        join_spaced(ws) == ws[0] + seq![' '] + join_spaced(ws.drop_first()),
    decreases ws.len(),
{
    let rest = ws.drop_first();
    if ws.len() == 2 {
        assert(join_spaced(ws.drop_last()) == ws[0]);
        assert(join_spaced(rest) == ws[1]);
    } else {
        let init = ws.drop_last();
        lemma_join_spaced_front(init);
        assert(init.drop_first() =~= rest.drop_last());
        assert(rest.last() == ws.last());
        assert(join_spaced(rest) == join_spaced(rest.drop_last()) + seq![' '] + rest.last());
        assert(join_spaced(ws) =~= ws[0] + seq![' '] + join_spaced(rest));
    }
}

/// Words joined by single spaces split back into the same words.
proof fn lemma_words_of_join_spaced(ws: Seq<Seq<char>>)
    requires
        forall|i: int| 0 <= i < ws.len() ==> is_word(#[trigger] ws[i]),
    ensures
        words_of(join_spaced(ws)) == ws,
    decreases ws.len(),
{
    if ws.len() == 0 {
        assert(words_of(join_spaced(ws)) =~= ws);
    } else if ws.len() == 1 {
        assert(is_word(ws[0]));
        lemma_words_of_word(ws[0]);
        assert(seq![ws[0]] =~= ws);
    } else {
        let rest = ws.drop_first();
        let tail = join_spaced(rest);
        lemma_join_spaced_front(ws);
        assert(is_word(ws[0]));
        assert((seq![' '] + tail)[0] == ' ');
        lemma_words_of_front(ws[0], seq![' '] + tail);
        assert(join_spaced(ws) =~= ws[0] + (seq![' '] + tail));
        assert((seq![' '] + tail).drop_first() =~= tail);
        assert(trim_start(seq![' '] + tail) == trim_start(tail));
        assert(words_of(seq![' '] + tail) == words_of(tail));
        assert forall|i: int| 0 <= i < rest.len() implies is_word(#[trigger] rest[i]) by {
            assert(rest[i] == ws[i + 1]);
        }
        lemma_words_of_join_spaced(rest);
        assert(seq![ws[0]] + rest =~= ws);
    }
}

/// Words joined by single spaces begin and end with no whitespace, so trimming keeps them.
proof fn lemma_join_spaced_trimmed(ws: Seq<Seq<char>>)
    requires
        ws.len() > 0,
        forall|i: int| 0 <= i < ws.len() ==> is_word(#[trigger] ws[i]),
    ensures
        join_spaced(ws).len() > 0,
        !unicode_whitespace(join_spaced(ws)[0]),
        trim(join_spaced(ws)) == join_spaced(ws),
    decreases ws.len(),
{
    let n = join_spaced(ws);
    assert(is_word(ws[0]));
    assert(is_word(ws.last()));
    if ws.len() == 1 {
        assert(n == ws[0]);
    } else {
        lemma_join_spaced_front(ws);
        assert(n[0] == ws[0][0]);
        assert(n == join_spaced(ws.drop_last()) + seq![' '] + ws.last());
    }
    assert(!unicode_whitespace(n[0]));
    assert(n.last() == ws.last().last()) by {
        if ws.len() > 1 {
            assert(n == join_spaced(ws.drop_last()) + seq![' '] + ws.last());
        }
    }
    assert(!unicode_whitespace(ws.last()[ws.last().len() - 1]));
    assert(trim_start(n) == n);
    assert(trim_end(n) == n);
}

/// Normalizing an expression that is already normalized changes nothing.
pub proof fn lemma_normalize_idempotent(expr: Seq<char>)
    ensures
        normalize_schedule(normalize_schedule(expr)) == normalize_schedule(expr),
{
    let t = trim(expr);
    lemma_trim_idempotent(expr);
    if !(t.len() > 0 && t[0] == '@') {
        let w = words_of(t);
        if w.len() == 7 {
            let five = w.subrange(1, 6);
            lemma_words_are_words(t);
            assert forall|i: int| 0 <= i < five.len() implies is_word(#[trigger] five[i]) by {
                assert(five[i] == w[i + 1]);
            }
            lemma_words_of_join_spaced(five);
            lemma_join_spaced_trimmed(five);
        }
    }
}

} // verus!

