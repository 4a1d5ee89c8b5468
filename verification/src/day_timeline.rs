//! The day timeline's schedule math: the local times at which a cron schedule fires
//! on one calendar day.

use vstd::prelude::*;
use chrono::{Datelike, TimeZone, Timelike};
use crate::order::{is_stable_sort_by, lemma_sorted_views, stable_sort, Pair, TotalOrder};
use crate::schedule::{parse_cron, schedule_valid, CronSchedule};

verus! {

/// Upper bound on the fire times looked at per item for one day: an every-minute
/// schedule fires 1440 times a day, and this bounds the cost of pathological ones.
pub const MAX_FIRES: usize = 2000;

/// One schedulable thing on the timeline: a label and its cron schedule.
#[derive(Debug, PartialEq, Eq)]
pub struct TimelineItem {
    /// Entity id reported when the item's chip is clicked.
    pub id: Option<String>,
    pub label: String,
    pub schedule: String,
    /// The item is snoozed; its chip is drawn muted.
    pub snoozed: bool,
    /// Open flag count, shown as a badge when non-zero.
    pub flag_count: usize,
}

/// `a` is an earlier calendar date than `b`; dates are `(year, month, day)`.
pub open spec fn date_before(a: (i32, u32, u32), b: (i32, u32, u32)) -> bool {
    ||| a.0 < b.0
    ||| a.0 == b.0 && a.1 < b.1
    ||| a.0 == b.0 && a.1 == b.1 && a.2 < b.2
}

/// The times of day that fall on `day` among the chronological local `(date, time)`
/// stamps of a schedule's fires: stamps before `day` are skipped, the scan stops at
/// the first stamp after it.
pub open spec fn day_fire_times(stamps: Seq<((i32, u32, u32), (u32, u32, u32))>, day: (i32, u32, u32)) -> Seq<(u32, u32, u32)>
    decreases stamps.len(),
{
    if stamps.len() == 0 {
        seq![]
    } else if date_before(stamps[0].0, day) {
        day_fire_times(stamps.drop_first(), day)
    } else if stamps[0].0 == day {
        seq![stamps[0].1] + day_fire_times(stamps.drop_first(), day)
    } else {
        seq![]
    }
}

/// The times of day of `stamps` that fall on `day` (see [`day_fire_times`]).
pub fn day_fires(stamps: &[((i32, u32, u32), (u32, u32, u32))], day: (i32, u32, u32)) -> (r: Vec<(u32, u32, u32)>)
    ensures
        r@ == day_fire_times(stamps@, day),
{
    let mut out: Vec<(u32, u32, u32)> = Vec::new();
    let mut i: usize = 0;
    proof {
        assert(stamps@.skip(0) =~= stamps@);
    }
    while i < stamps.len()
        invariant
            i <= stamps@.len(),
            out@ + day_fire_times(stamps@.skip(i as int), day) == day_fire_times(stamps@, day),
        decreases stamps@.len() - i,
    {
        let (date, time) = stamps[i];
        proof {
            assert(stamps@.skip(i as int)[0] == stamps@[i as int]);
            assert(stamps@.skip(i as int).drop_first() =~= stamps@.skip(i + 1));
        }
        let before = date.0 < day.0 || (date.0 == day.0 && date.1 < day.1) || (date.0 == day.0 && date.1 == day.1
            && date.2 < day.2);
        if before {
            i = i + 1;
        } else if date.0 == day.0 && date.1 == day.1 && date.2 == day.2 {
            let ghost prev = out@;
            out.push(time);
            proof {
                assert(out@ + day_fire_times(stamps@.skip(i + 1), day) =~= prev + (seq![time] + day_fire_times(
                    stamps@.skip(i + 1),
                    day,
                )));
            }
            i = i + 1;
        } else {
            proof {
                assert(out@ + Seq::<(u32, u32, u32)>::empty() =~= out@);
            }
            return out;
        }
    }
    proof {
        assert(stamps@.skip(stamps@.len() as int) =~= Seq::<((i32, u32, u32), (u32, u32, u32))>::empty());
        assert(out@ + Seq::<(u32, u32, u32)>::empty() =~= out@);
    }
    out
}

/// The times kept for `day` are no more than the stamps looked at, and each is the time
/// of one of those stamps dated `day`.
pub proof fn lemma_day_fire_times_from_stamps(stamps: Seq<((i32, u32, u32), (u32, u32, u32))>, day: (i32, u32, u32))
    ensures
        day_fire_times(stamps, day).len() <= stamps.len(),
        forall|k: int|
            0 <= k < day_fire_times(stamps, day).len() ==> exists|i: int|
                0 <= i < stamps.len() && stamps[i] == (day, #[trigger] day_fire_times(stamps, day)[k]),
    decreases stamps.len(),
{
    if stamps.len() > 0 {
        let rest = stamps.drop_first();
        lemma_day_fire_times_from_stamps(rest, day);
        let out = day_fire_times(stamps, day);
        let tail = day_fire_times(rest, day);
        if date_before(stamps[0].0, day) {
            assert forall|k: int| 0 <= k < out.len() implies exists|i: int|
                0 <= i < stamps.len() && stamps[i] == (day, #[trigger] out[k]) by {
                let i = choose|i: int| 0 <= i < rest.len() && rest[i] == (day, tail[k]);
                assert(stamps[i + 1] == rest[i]);
            }
        } else if stamps[0].0 == day {
            assert forall|k: int| 0 <= k < out.len() implies exists|i: int|
                0 <= i < stamps.len() && stamps[i] == (day, #[trigger] out[k]) by {
                if k == 0 {
                    assert(stamps[0] == (day, out[0]));
                } else {
                    assert(out[k] == tail[k - 1]);
                    let i = choose|i: int| 0 <= i < rest.len() && rest[i] == (day, tail[k - 1]);
                    assert(stamps[i + 1] == rest[i]);
                }
            }
        }
    }
}

/// A well-formed local date and time: month 1–12, day 1–31, hour, minute and second in
/// range.
pub open spec fn stamp_ok(s: ((i32, u32, u32), (u32, u32, u32))) -> bool {
    &&& 1 <= s.0.1 <= 12
    &&& 1 <= s.0.2 <= 31
    &&& s.1.0 < 24
    &&& s.1.1 < 60
    &&& s.1.2 < 60
}

/// The Unix timestamp of local midnight starting `day`, through `chrono`
/// (`NaiveDate::from_ymd_opt`, `and_hms_opt`, `Local::from_local_datetime(..).earliest()`).
/// It depends on the machine's time zone, so nothing is claimed of it; `None` for a date
/// that does not exist or a midnight the zone skips.
#[verifier::external_body]
fn local_midnight(day: (i32, u32, u32)) -> (r: Option<i64>) {
    let naive = chrono::NaiveDate::from_ymd_opt(day.0, day.1, day.2)?.and_hms_opt(0, 0, 0)?;
    chrono::Local.from_local_datetime(&naive).earliest().map(|t| t.timestamp())
}

/// The local date and time of a Unix timestamp, through `chrono`
/// (`DateTime::from_timestamp`, `with_timezone(&Local)`, `Datelike`, `Timelike`). It
/// depends on the machine's time zone; claimed are only the ranges `chrono` documents
/// for its fields. `None` for a timestamp out of `chrono`'s range.
#[verifier::external_body]
fn local_stamp(ts: i64) -> (r: Option<((i32, u32, u32), (u32, u32, u32))>)
    ensures
        r matches Some(s) ==> stamp_ok(s),
{
    let t = chrono::DateTime::from_timestamp(ts, 0)?.with_timezone(&chrono::Local);
    Some(((t.year(), t.month(), t.day()), (t.hour(), t.minute(), t.second())))
}

// ─── The scan ────────────────────────────────────────────────────────────────

/// What the scan does with the result of its lookup number `count` (from zero): `found` is
/// the next fire after the cursor and the fire's local stamp, when both were had. The stamp
/// is kept; the scan goes on from that fire as its next cursor unless the stamp's date lies
/// past `day` or [`MAX_FIRES`] stamps are kept. With nothing found it keeps nothing and stops.
pub open spec fn scan_decision(
    found: Option<(i64, ((i32, u32, u32), (u32, u32, u32)))>,
    day: (i32, u32, u32),
    count: nat,
) -> (Option<((i32, u32, u32), (u32, u32, u32))>, Option<i64>) {
    match found {
        None => (None, None),
        Some(p) => (Some(p.1), if date_before(day, p.1.0) || count + 1 >= MAX_FIRES { None } else { Some(p.0) }),
    }
}

/// One step of the scan (see [`scan_decision`]): the stamp to keep, and the next cursor or
/// `None` to stop.
pub fn scan_step(
    found: Option<(i64, ((i32, u32, u32), (u32, u32, u32)))>,
    day: (i32, u32, u32),
    count: usize,
) -> (r: (Option<((i32, u32, u32), (u32, u32, u32))>, Option<i64>))
    ensures
        r == scan_decision(found, day, count as nat),
{
    match found {
        None => (None, None),
        Some((t, stamp)) => {
            let date = stamp.0;
            let after = date.0 > day.0 || (date.0 == day.0 && date.1 > day.1) || (date.0 == day.0 && date.1 == day.1
                && date.2 > day.2);
            if after || count >= MAX_FIRES - 1 {
                (Some(stamp), None)
            } else {
                (Some(stamp), Some(t))
            }
        },
    }
}

/// The stamps a scan keeps from the results of its lookups, in order.
pub open spec fn stamps_found(found: Seq<Option<(i64, ((i32, u32, u32), (u32, u32, u32)))>>) -> Seq<
    ((i32, u32, u32), (u32, u32, u32)),
>
    decreases found.len(),
{
    if found.len() == 0 {
        seq![]
    } else {
        stamps_found(found.drop_last()) + match found.last() {
            Some(p) => seq![p.1],
            None => seq![],
        }
    }
}

/// A scan from `first`: its lookup number `i` was made from `cursors[i]` and gave
/// `found[i]`; the first lookup starts at `first`, each later one at the fire the one
/// before found, as [`scan_decision`] goes on, and the scan stops after the last.
pub open spec fn scan_trace(
    first: int,
    day: (i32, u32, u32),
    cursors: Seq<i64>,
    found: Seq<Option<(i64, ((i32, u32, u32), (u32, u32, u32)))>>,
) -> bool {
    &&& 1 <= found.len() <= MAX_FIRES
    &&& cursors.len() == found.len()
    &&& cursors[0] == first
    &&& forall|i: int| 0 <= i < found.len() - 1 ==> scan_decision(#[trigger] found[i], day, i as nat).1 == Some(cursors[i + 1])
    &&& scan_decision(found.last(), day, (found.len() - 1) as nat).1 is None
}

/// A scan for `day` that starts one second before the instant `midnight` (see
/// [`scan_trace`]).
pub open spec fn scan_from_midnight(
    midnight: i64,
    day: (i32, u32, u32),
    cursors: Seq<i64>,
    found: Seq<Option<(i64, ((i32, u32, u32), (u32, u32, u32)))>>,
) -> bool {
    scan_trace(midnight - 1, day, cursors, found)
}

/// The fire times on `day` that a scan from `first` finds, `lookup` giving the next fire
/// after a cursor and its local stamp: the scan of [`scan_trace`], whose lookups are calls
/// of `lookup`, and of its kept stamps the times dated `day` ([`day_fire_times`]).
pub fn scan_day<F: Fn(i64) -> Option<(i64, ((i32, u32, u32), (u32, u32, u32)))>>(
    lookup: F,
    first: i64,
    day: (i32, u32, u32),
) -> (r: Vec<(u32, u32, u32)>)
    requires
        forall|c: i64| lookup.requires((c,)),
    ensures
        exists|cursors: Seq<i64>, found: Seq<Option<(i64, ((i32, u32, u32), (u32, u32, u32)))>>|
            {
                &&& scan_trace(first as int, day, cursors, found)
                &&& forall|i: int| 0 <= i < found.len() ==> lookup.ensures((cursors[i],), #[trigger] found[i])
                &&& r@ == day_fire_times(stamps_found(found), day)
            },
{
    let mut stamps: Vec<((i32, u32, u32), (u32, u32, u32))> = Vec::new();
    let mut cursor = first;
    let mut going = true;
    let mut n: usize = 0;
    let ghost mut cursors: Seq<i64> = seq![];
    let ghost mut found: Seq<Option<(i64, ((i32, u32, u32), (u32, u32, u32)))>> = seq![];
    while going
        invariant
            forall|c: i64| lookup.requires((c,)),
            n == found.len(),
            n <= MAX_FIRES,
            going ==> n < MAX_FIRES,
            cursors.len() == found.len(),
            stamps@ == stamps_found(found),
            n == 0 ==> going && cursor == first,
            n > 0 ==> cursors[0] == first,
            forall|i: int| 0 <= i < n - 1 ==> scan_decision(#[trigger] found[i], day, i as nat).1 == Some(cursors[i + 1]),
            n > 0 && going ==> scan_decision(found.last(), day, (n - 1) as nat).1 == Some(cursor),
            n > 0 && !going ==> scan_decision(found.last(), day, (n - 1) as nat).1 is None,
            forall|i: int| 0 <= i < n ==> lookup.ensures((cursors[i],), #[trigger] found[i]),
        decreases MAX_FIRES - n,
    {
        let f = lookup(cursor);
        let ghost prev_found = found;
        let ghost prev_cursors = cursors;
        proof {
            cursors = cursors.push(cursor);
            found = found.push(f);
            assert(found.drop_last() =~= prev_found);
        }
        let (keep, next) = scan_step(f, day, n);
        match keep {
            Some(stamp) => {
                stamps.push(stamp);
            },
            None => {},
        }
        proof {
            assert forall|i: int| 0 <= i < n + 1 - 1 implies scan_decision(#[trigger] found[i], day, i as nat).1 == Some(
                cursors[i + 1],
            ) by {
                assert(found[i] == prev_found[i] || i == n);
                if i < n - 1 {
                    assert(found[i] == prev_found[i]);
                    assert(cursors[i + 1] == prev_cursors[i + 1]);
                } else {
                    assert(found[i] == prev_found.last());
                    assert(cursors[i + 1] == cursor);
                }
            }
            assert forall|i: int| 0 <= i < n + 1 implies lookup.ensures((cursors[i],), #[trigger] found[i]) by {
                if i < n {
                    assert(found[i] == prev_found[i]);
                    assert(cursors[i] == prev_cursors[i]);
                }
            }
        }
        n = n + 1;
        match next {
            Some(c) => {
                cursor = c;
            },
            None => {
                going = false;
            },
        }
    }
    let r = day_fires(stamps.as_slice(), day);
    proof {
        assert(scan_trace(first as int, day, cursors, found));
        assert(forall|i: int| 0 <= i < found.len() ==> lookup.ensures((cursors[i],), #[trigger] found[i]));
    }
    r
}

/// The next fire of `cron` after `cursor` and its local stamp, when both are had.
fn fire_and_stamp(cron: &CronSchedule, cursor: i64) -> (r: Option<(i64, ((i32, u32, u32), (u32, u32, u32)))>)
    ensures
        r matches Some(p) ==> p.0 > cursor && stamp_ok(p.1),
{
    match cron.next_after(cursor) {
        Some(t) => match local_stamp(t) {
            Some(stamp) => Some((t, stamp)),
            None => None,
        },
        None => None,
    }
}

/// All times of day at which `schedule` fires on `day` in the machine's local time, in the
/// order the fires come, looking at no more than [`MAX_FIRES`] fires. An unparseable
/// schedule fires never. The scan ([`scan_day`]) starts one second before the day's local
/// midnight, so a fire at midnight counts, and each later lookup starts from the fire the
/// one before found. Which fires and stamps come back depends on the machine's clock and
/// time zone; whatever they are, the result is [`day_fire_times`] of the stamps kept.
pub fn fire_times(schedule: &str, day: (i32, u32, u32)) -> (r: Vec<(u32, u32, u32)>)
    ensures
        !schedule_valid(schedule@) ==> r@.len() == 0,
        r@.len() <= MAX_FIRES,
        r@.len() == 0 || exists|
            midnight: i64,
            cursors: Seq<i64>,
            found: Seq<Option<(i64, ((i32, u32, u32), (u32, u32, u32)))>>,
        |
            {
                &&& #[trigger] scan_from_midnight(midnight, day, cursors, found)
                &&& forall|i: int|
                    0 <= i < found.len() ==> (#[trigger] found[i] matches Some(p) ==> p.0 > cursors[i] && stamp_ok(p.1))
                &&& r@ == day_fire_times(stamps_found(found), day)
            },
{
    let empty: Vec<(u32, u32, u32)> = Vec::new();
    let cron = match parse_cron(schedule) {
        Some(c) => c,
        None => return empty,
    };
    let start = match local_midnight(day) {
        Some(t) => t,
        None => return empty,
    };
    let first = match start.checked_sub(1) {
        Some(t) => t,
        None => return empty,
    };
    let lookup = |c: i64| -> (f: Option<(i64, ((i32, u32, u32), (u32, u32, u32)))>)
        ensures
            f matches Some(p) ==> p.0 > c && stamp_ok(p.1),
        { fire_and_stamp(&cron, c) };
    let r = scan_day(lookup, first, day);
    proof {
        let (cursors, found) = choose|
            cursors: Seq<i64>,
            found: Seq<Option<(i64, ((i32, u32, u32), (u32, u32, u32)))>>,
        |
            {
                &&& scan_trace(first as int, day, cursors, found)
                &&& forall|i: int| 0 <= i < found.len() ==> lookup.ensures((cursors[i],), #[trigger] found[i])
                &&& r@ == day_fire_times(stamps_found(found), day)
            };
        assert forall|i: int| 0 <= i < found.len() implies (#[trigger] found[i] matches Some(p) ==> p.0 > cursors[i]
            && stamp_ok(p.1)) by {
            assert(lookup.ensures((cursors[i],), found[i]));
        }
        lemma_stamps_found_len(found);
        lemma_day_fire_times_from_stamps(stamps_found(found), day);
        assert(first == start - 1);
        assert(scan_from_midnight(start, day, cursors, found));
    }
    r
}

/// A scan keeps at most one stamp per lookup.
proof fn lemma_stamps_found_len(found: Seq<Option<(i64, ((i32, u32, u32), (u32, u32, u32)))>>)
    ensures
        stamps_found(found).len() <= found.len(),
    decreases found.len(),
{
    if found.len() > 0 {
        lemma_stamps_found_len(found.drop_last());
    }
}

// ─── Hour rows ──────────────────────────────────────────────────────────────

/// Time of day `a` is no later than `b`; times are `(hour, minute, second)`.
pub open spec fn time_le(a: (u32, u32, u32), b: (u32, u32, u32)) -> bool {
    ||| a.0 < b.0
    ||| a.0 == b.0 && a.1 < b.1
    ||| a.0 == b.0 && a.1 == b.1 && a.2 <= b.2
}

/// The indices among the first `n` of `fires` whose hour is `h`, in order.
pub open spec fn in_hour(fires: Seq<(u32, u32, u32)>, h: int, n: int) -> Seq<usize>
    decreases n,
{
    if n <= 0 {
        seq![]
    } else {
        in_hour(fires, h, n - 1) + if fires[n - 1].0 == h {
            seq![(n - 1) as usize]
        } else {
            seq![]
        }
    }
}

/// The day view's hour rows: for each hour `h` of the day, the indices of the fire times
/// in that hour, earliest first, equal times in input order. Times whose hour is 24 or
/// more fall in no row.
pub fn hour_buckets(fires: &[(u32, u32, u32)]) -> (r: Vec<Vec<usize>>)
    ensures
        r@.len() == 24,
        forall|h: int|
            0 <= h < 24 ==> is_stable_sort_by(
                (#[trigger] r@[h])@,
                in_hour(fires@, h, fires@.len() as int),
                |a: usize, b: usize| time_le(fires@[a as int], fires@[b as int]),
            ),
{
    let mut rows: Vec<Vec<usize>> = Vec::new();
    let mut h: u32 = 0;
    while h < 24
        invariant
            h <= 24,
            rows@.len() == h,
            forall|k: int|
                0 <= k < h ==> is_stable_sort_by(
                    (#[trigger] rows@[k])@,
                    in_hour(fires@, k, fires@.len() as int),
                    |a: usize, b: usize| time_le(fires@[a as int], fires@[b as int]),
                ),
        decreases 24 - h,
    {
        let mut idxs: Vec<usize> = Vec::new();
        let mut keys: Vec<Pair<u64, u64>> = Vec::new();
        let mut i: usize = 0;
        while i < fires.len()
            invariant
                i <= fires@.len(),
                idxs@ == in_hour(fires@, h as int, i as int),
                keys@.len() == idxs@.len(),
                forall|k: int| 0 <= k < idxs@.len() ==> (#[trigger] idxs@[k]) < i && fires@[idxs@[k] as int].0 == h,
                forall|k: int|
                    0 <= k < keys@.len() ==> (#[trigger] keys@[k]).first == fires@[idxs@[k] as int].1 && keys@[k].second
                        == fires@[idxs@[k] as int].2,
            decreases fires@.len() - i,
        {
            let ghost before = idxs@;
            let ghost kbefore = keys@;
            if fires[i].0 == h {
                idxs.push(i);
                keys.push(Pair { first: fires[i].1 as u64, second: fires[i].2 as u64 });
                proof {
                    assert forall|k: int| 0 <= k < keys@.len() implies (#[trigger] keys@[k]).first
                        == fires@[idxs@[k] as int].1 && keys@[k].second == fires@[idxs@[k] as int].2 by {
                        if k < kbefore.len() {
                            assert(keys@[k] == kbefore[k] && idxs@[k] == before[k]);
                        }
                    }
                    assert forall|k: int| 0 <= k < idxs@.len() implies (#[trigger] idxs@[k]) < i + 1
                        && fires@[idxs@[k] as int].0 == h by {
                        if k < before.len() {
                            assert(idxs@[k] == before[k]);
                        }
                    }
                }
            }
            proof {
                assert(idxs@ =~= in_hour(fires@, h as int, i + 1));
            }
            i = i + 1;
        }
        let ghost inp = idxs@;
        let ghost ks = keys@;
        let perm = stable_sort(&mut idxs, &mut keys);
        proof {
            let le = |a: usize, b: usize| time_le(fires@[a as int], fires@[b as int]);
            assert forall|a: int, b: int| 0 <= a < inp.len() && 0 <= b < inp.len() implies (#[trigger] ks[a]).key_le(
                #[trigger] ks[b],
            ) == le(inp[a]@, inp[b]@) by {
                assert(fires@[inp[a] as int].0 == h && fires@[inp[b] as int].0 == h);
            }
            lemma_sorted_views(idxs@, inp, ks, perm@, le);
            assert(idxs@.map_values(|x: usize| x@) =~= idxs@);
            assert(inp.map_values(|x: usize| x@) =~= inp);
        }
        let ghost prev = rows@;
        rows.push(idxs);
        proof {
            assert forall|k: int|
                0 <= k < h + 1 implies is_stable_sort_by(
                (#[trigger] rows@[k])@,
                in_hour(fires@, k, fires@.len() as int),
                |a: usize, b: usize| time_le(fires@[a as int], fires@[b as int]),
            ) by {
                if k < h {
                    assert(rows@[k] == prev[k]);
                }
            }
        }
        h = h + 1;
    }
    rows
}

} // verus!

